//! The structural walker and the textual renderer: every addressed region
//! of an image is classified into a labelled segment, and the segments are
//! rendered, padding included, into a deterministic report.

use vstd::prelude::*;
use vstd::slice::slice_to_vec;
use crate::erofs::format::{DataLayout, FormatField, InodeLayout, S_IFDIR, S_IFMT};
use crate::erofs::reader::{
    CompactInodeHeader, ComposefsHeader, DirectoryBlock, ExtendedInodeHeader, Image, ImageError,
    Inode, InodeHeader, InodeXAttrs, Superblock, XAttr,
};
use crate::image::path_join_exec;

verus! {

/// What a segment of the image holds.
#[derive(Clone, Copy, Debug, PartialEq, Eq, Structural)]
pub enum SegmentKind {
    Header,
    Superblock,
    CompactInode,
    ExtendedInode,
    XAttr,
    DataBlock,
    DirectoryBlock,
}

/// One labelled region of the image: its extent, its kind, and every path
/// under which the walk reached it.
#[derive(Debug)]
pub struct Segment {
    pub offset: u64,
    pub size: u64,
    pub kind: SegmentKind,
    pub paths: Vec<Vec<u8>>,
}

/// Segments are strictly ordered by offset; in particular no two share an
/// offset.
pub open spec fn segs_sorted(v: Seq<Segment>) -> bool {
    forall|i: int, j: int| 0 <= i < j < v.len() ==> v[i].offset < v[j].offset
}

/// Every segment's extent stays within `len` bytes.
pub open spec fn segs_within(v: Seq<Segment>, len: int) -> bool {
    forall|i: int| 0 <= i < v.len() ==> (#[trigger] v[i]).offset + v[i].size <= len
}

/// In a strictly sorted segment list the `i`-th offset is at least `i`.
proof fn lemma_sorted_min_offset(v: Seq<Segment>, i: int)
    requires
        segs_sorted(v),
        0 <= i < v.len(),
    ensures
        v[i].offset >= i,
    decreases i,
{
    if i > 0 {
        lemma_sorted_min_offset(v, i - 1);
        assert(v[i - 1].offset < v[i].offset);
    }
}

/// Strictly sorted segments within `len` bytes number at most `len + 1`.
proof fn lemma_segs_len_bound(v: Seq<Segment>, len: int)
    requires
        segs_sorted(v),
        segs_within(v, len),
        len >= 0,
    ensures
        v.len() <= len + 1,
{
    if v.len() > len + 1 {
        lemma_sorted_min_offset(v, len + 1);
        assert(v[len + 1].offset + v[len + 1].size <= len);
    }
}

/// Binary-search the segments for `offset`: its index, or the index where
/// a segment at that offset would have to be inserted.
fn find_seg(segs: &Vec<Segment>, offset: u64) -> (r: Result<usize, usize>)
    requires
        segs_sorted(segs@),
    ensures
        match r {
            Ok(i) => i < segs@.len() && segs@[i as int].offset == offset,
            Err(i) => i <= segs@.len() && (forall|j: int|
                0 <= j < i ==> (#[trigger] segs@[j]).offset < offset) && (forall|j: int|
                i <= j < segs@.len() ==> (#[trigger] segs@[j]).offset > offset),
        },
{
    let mut lo: usize = 0;
    let mut hi: usize = segs.len();
    while lo < hi
        invariant
            0 <= lo <= hi <= segs@.len(),
            segs_sorted(segs@),
            forall|j: int| 0 <= j < lo ==> (#[trigger] segs@[j]).offset < offset,
            forall|j: int| hi <= j < segs@.len() ==> (#[trigger] segs@[j]).offset > offset,
        decreases hi - lo,
    {
        let mid = lo + (hi - lo) / 2;
        let v = segs[mid].offset;
        if v < offset {
            lo = mid + 1;
        } else if v > offset {
            hi = mid;
        } else {
            return Ok(mid);
        }
    }
    Err(lo)
}

/// The segment list holds, at `off`, a segment of the given kind and size
/// whose path list is empty.
pub open spec fn seg_has_empty(v: Seq<Segment>, off: u64, kind: SegmentKind, size: u64) -> bool {
    exists|i: int|
        0 <= i < v.len() && (#[trigger] v[i]).offset == off && v[i].kind == kind && v[i].size
            == size && v[i].paths@ == Seq::<Vec<u8>>::empty()
}

/// The offset is already recorded: the segment just below the insertion
/// position carries it.
pub open spec fn seg_found(v: Seq<Segment>, offset: int) -> bool {
    seg_pos(v, offset) >= 1 && v[seg_pos(v, offset) - 1].offset == offset
}

/// Record a segment, idempotently by offset. A revisit of a known offset
/// must agree on kind and size and only adds the path; disagreement is a
/// mismatch. Returns whether the offset had been seen before: `Ok(true)`
/// exactly on a consistent revisit (only the path list of the stored
/// segment grows), `Ok(false)` exactly on a fresh offset (the new segment
/// is inserted at its sorted position), `Err` exactly on a kind or size
/// disagreement (nothing changes).
#[verifier::rlimit(100)]
#[verifier::spinoff_prover]
fn note(segs: &mut Vec<Segment>, offset: u64, size: u64, kind: SegmentKind, path: Option<
    Vec<u8>,
>) -> (r: Result<bool, ImageError>)
    requires
        segs_sorted(old(segs)@),
    ensures
        segs_sorted(final(segs)@),
        ({
            let v0 = old(segs)@;
            let v1 = final(segs)@;
            let p = seg_pos(v0, offset as int);
            let added: Seq<Vec<u8>> = match path {
                Some(pa) => seq![pa],
                None => Seq::empty(),
            };
            match r {
                Err(e) => e == ImageError::SegmentMismatch && v1 == v0 && seg_found(
                    v0,
                    offset as int,
                ) && !(v0[p - 1].kind == kind && v0[p - 1].size == size),
                Ok(true) => seg_found(v0, offset as int) && v0[p - 1].kind == kind && v0[p
                    - 1].size == size && v1.len() == v0.len() && (forall|j: int|
                    0 <= j < v0.len() && j != p - 1 ==> v1[j] == v0[j]) && v1[p - 1].offset
                    == offset && v1[p - 1].kind == kind && v1[p - 1].size == size && v1[p
                    - 1].paths@ == v0[p - 1].paths@ + added,
                Ok(false) => !seg_found(v0, offset as int) && v1.len() == v0.len() + 1 && (
                forall|j: int| 0 <= j < p ==> v1[j] == v0[j]) && (forall|j: int|
                    p <= j < v0.len() ==> v1[j + 1] == v0[j]) && v1[p].offset == offset && v1[
                    p].kind == kind && v1[p].size == size && v1[p].paths@ == added,
            }
        }),
        final(segs)@.len() >= old(segs)@.len(),
        forall|off2: u64, k2: SegmentKind, s2: u64|
            k2 != kind && #[trigger] seg_has_empty(old(segs)@, off2, k2, s2) ==> seg_has_empty(
                final(segs)@,
                off2,
                k2,
                s2,
            ),
        forall|len: int|
            segs_within(old(segs)@, len) && offset + size <= len ==> segs_within(
                final(segs)@,
                len,
            ),
{
    let ghost s0 = segs@;
    proof {
        lemma_seg_pos(s0, offset as int);
    }
    let ghost p = seg_pos(s0, offset as int);
    match find_seg(segs, offset) {
        Ok(i) => {
            proof {
                // the found index is exactly the sorted position
                assert(s0[i as int].offset <= offset);
                assert((i as int) < p);
                if (i as int) + 1 < p {
                    assert(s0[p - 1].offset <= offset);
                    assert(s0[i as int].offset < s0[p - 1].offset);
                    assert(false);
                }
                assert(i as int == p - 1);
                assert(seg_found(s0, offset as int));
            }
            let same = segs[i].kind == kind && segs[i].size == size;
            if !same {
                proof {
                    assert forall|off2: u64, k2: SegmentKind, s2: u64|
                        k2 != kind && #[trigger] seg_has_empty(s0, off2, k2, s2) implies
                        seg_has_empty(segs@, off2, k2, s2) by {}
                }
                return Err(ImageError::SegmentMismatch);
            }
            match path {
                Some(pth) => {
                    let ghost pg = pth;
                    let e = &mut segs[i];
                    e.paths.push(pth);
                    proof {
                        assert(forall|j: int|
                            0 <= j < segs@.len() ==> (#[trigger] segs@[j]).offset == s0[j].offset
                                && segs@[j].size == s0[j].size);
                        assert(segs@[p - 1].paths@ =~= s0[p - 1].paths@ + seq![pg]);
                    }
                },
                None => {
                    proof {
                        assert(segs@[p - 1].paths@ =~= s0[p - 1].paths@ + Seq::<Vec<u8>>::empty());
                    }
                },
            }
            proof {
                assert forall|off2: u64, k2: SegmentKind, s2: u64|
                    k2 != kind && #[trigger] seg_has_empty(s0, off2, k2, s2) implies seg_has_empty(
                    segs@,
                    off2,
                    k2,
                    s2,
                ) by {
                    let m = choose|m: int|
                        0 <= m < s0.len() && (#[trigger] s0[m]).offset == off2 && s0[m].kind == k2
                            && s0[m].size == s2 && s0[m].paths@ == Seq::<Vec<u8>>::empty();
                    assert(m != p - 1);
                    assert(segs@[m] == s0[m]);
                }
            }
            Ok(true)
        },
        Err(i) => {
            proof {
                // the insertion index is exactly the sorted position
                if (i as int) < p {
                    assert(s0[i as int].offset <= offset);
                    assert(s0[i as int].offset > offset);
                }
                if (i as int) > p {
                    assert(s0[p].offset > offset);
                    assert(s0[p].offset < offset);
                }
                assert(i as int == p);
                if seg_found(s0, offset as int) {
                    assert(s0[p - 1].offset < offset);
                }
            }
            let paths: Vec<Vec<u8>> = match path {
                Some(pth) => {
                    let mut v = Vec::new();
                    v.push(pth);
                    v
                },
                None => Vec::new(),
            };
            proof {
                assert(paths@ =~= (match path {
                    Some(pa) => seq![pa],
                    None => Seq::<Vec<u8>>::empty(),
                }));
            }
            let newseg = Segment { offset, size, kind, paths };
            let ghost segg = newseg;
            segs.insert(i, newseg);
            proof {
                s0.insert_ensures(i as int, segg);
                assert forall|a: int, b: int|
                    0 <= a < b < segs@.len() implies (#[trigger] segs@[a]).offset < (
                #[trigger] segs@[b]).offset by {
                    let q = i as int;
                    if a < q && b == q {
                    } else if a < q && b > q {
                        assert(segs@[b] == s0[b - 1]);
                    } else if a == q && b > q {
                        assert(segs@[b] == s0[b - 1]);
                    } else if a != q && b != q {
                        let a0: int = if a < q {
                            a
                        } else {
                            a - 1
                        };
                        let b0: int = if b < q {
                            b
                        } else {
                            b - 1
                        };
                        assert(segs@[a] == s0[a0] && segs@[b] == s0[b0]);
                    }
                }
                assert forall|off2: u64, k2: SegmentKind, s2: u64|
                    k2 != kind && #[trigger] seg_has_empty(s0, off2, k2, s2) implies seg_has_empty(
                    segs@,
                    off2,
                    k2,
                    s2,
                ) by {
                    let m = choose|m: int|
                        0 <= m < s0.len() && (#[trigger] s0[m]).offset == off2 && s0[m].kind == k2
                            && s0[m].size == s2 && s0[m].paths@ == Seq::<Vec<u8>>::empty();
                    if m < i as int {
                        assert(segs@[m] == s0[m]);
                    } else {
                        assert(segs@[m + 1] == s0[m]);
                    }
                }
            }
            Ok(false)
        },
    }
}

/// An inode segment names a real inode: its offset is a 32-byte unit of
/// the meta region, the inode parses there, the stored form agrees with
/// the segment kind, and the size is the inode's whole stored extent.
pub open spec fn inode_seg_valid(img: Image, offset: u64, size: u64, compact: bool) -> bool {
    let s = img.data@;
    let meta = img.sb.meta_blkaddr * (1u64 << img.blkszbits);
    let off = offset as int;
    &&& off >= meta
    &&& (off - meta) % 32 == 0
    &&& crate::erofs::reader::inode_fits(
        s,
        img.sb.meta_blkaddr,
        img.blkszbits,
        (((off - meta) / 32) as u64),
    )
    &&& (crate::erofs::format::spec_inode_layout_of(
        crate::erofs::reader::le16(s, off),
    ) is Extended) == !compact
    &&& size == crate::erofs::reader::inode_hsize(s, off) + crate::erofs::reader::xattr_area_len(
        crate::erofs::reader::le16(s, off + 2),
    ) + crate::erofs::reader::inode_inline_len(s, off, img.blkszbits)
}

/// A recorded segment is the decoded object at its offset: the fixed
/// header and superblock extents, a parsing inode of the right form, a
/// shared xattr record within bounds, or a whole block (a parsing
/// directory block for the directory kind).
pub open spec fn seg_tuple_valid(img: Image, offset: u64, size: u64, kind: SegmentKind) -> bool {
    let s = img.data@;
    let bs = (1u64 << img.blkszbits) as int;
    let off = offset as int;
    match kind {
        SegmentKind::Header => off == 0 && size == 32,
        SegmentKind::Superblock => off == 1024 && size == 128,
        SegmentKind::CompactInode => inode_seg_valid(img, offset, size, true),
        SegmentKind::ExtendedInode => inode_seg_valid(img, offset, size, false),
        SegmentKind::XAttr => off + 4 <= s.len() && off + crate::erofs::reader::xattr_total_at(
            s,
            off,
        ) <= s.len() && size == crate::erofs::reader::xattr_total_at(s, off),
        SegmentKind::DirectoryBlock => off % bs == 0 && size == bs
            && crate::erofs::reader::dirblock_ok(s.subrange(off, off + bs)),
        SegmentKind::DataBlock => off % bs == 0 && size == bs,
    }
}

/// Every recorded segment is the decoded object at its offset.
pub open spec fn seg_valid(img: Image, seg: Segment) -> bool {
    seg_tuple_valid(img, seg.offset, seg.size, seg.kind)
}


/// The mathematical value of one recorded segment.
pub struct SegView {
    pub offset: u64,
    pub size: u64,
    pub kind: SegmentKind,
    pub paths: Seq<Seq<u8>>,
}

/// The mathematical value of a recorded segment.
pub open spec fn seg_view(s: Segment) -> SegView {
    SegView {
        offset: s.offset,
        size: s.size,
        kind: s.kind,
        paths: Seq::new(s.paths@.len(), |i: int| s.paths@[i]@),
    }
}

/// The mathematical values of a segment list.
pub open spec fn segs_deep(v: Seq<Segment>) -> Seq<SegView> {
    Seq::new(v.len(), |i: int| seg_view(v[i]))
}

/// The mathematical values of the walk's work list.
pub open spec fn stack_deep(v: Seq<(u64, Vec<u8>)>) -> Seq<(u64, Seq<u8>)> {
    Seq::new(v.len(), |i: int| (v[i].0, v[i].1@))
}

/// The number of recorded segments whose offset is at most `p`, at the
/// view level.
pub open spec fn seg_pos_v(v: Seq<SegView>, p: int) -> int
    decreases v.len(),
{
    if v.len() == 0 {
        0
    } else if v[0].offset <= p {
        1 + seg_pos_v(v.drop_first(), p)
    } else {
        0
    }
}

/// View-level counting agrees with segment-level counting.
pub proof fn lemma_seg_pos_deep(v: Seq<Segment>, p: int)
    ensures
        seg_pos_v(segs_deep(v), p) == seg_pos(v, p),
    decreases v.len(),
{
    if v.len() > 0 {
        assert(segs_deep(v).drop_first() =~= segs_deep(v.drop_first()));
        lemma_seg_pos_deep(v.drop_first(), p);
    }
}

/// What `note` does, at the view level: append the path on a consistent
/// revisit, insert a fresh segment at its sorted position, refuse a kind
/// or size disagreement.
pub open spec fn note_v(
    v: Seq<SegView>,
    offset: u64,
    size: u64,
    kind: SegmentKind,
    path: Option<Seq<u8>>,
) -> Result<(Seq<SegView>, bool), ImageError> {
    let p = seg_pos_v(v, offset as int);
    let added: Seq<Seq<u8>> = match path {
        Some(pa) => seq![pa],
        None => Seq::empty(),
    };
    if p >= 1 && v[p - 1].offset == offset {
        if v[p - 1].kind == kind && v[p - 1].size == size {
            Ok(
                (
                    v.update(
                        p - 1,
                        SegView { offset, size, kind, paths: v[p - 1].paths + added },
                    ),
                    true,
                ),
            )
        } else {
            Err(ImageError::SegmentMismatch)
        }
    } else {
        Ok((v.insert(p, SegView { offset, size, kind, paths: added }), false))
    }
}

/// The walk's state: still working through its list, finished with its
/// segments, or stopped on an error.
pub enum WalkState {
    Running(Seq<SegView>, Seq<(u64, Seq<u8>)>),
    Done(Seq<SegView>),
    Fail(ImageError),
}

/// The error the inode decoder reports for a nid whose stored extent does
/// not parse.
pub open spec fn inode_fail_error(s: Seq<u8>, base: int) -> ImageError {
    if base + 32 <= s.len() && crate::erofs::format::spec_data_layout_of(
        crate::erofs::reader::le16(s, base),
    ) is Err {
        ImageError::InvalidDataLayout
    } else {
        ImageError::TruncatedImage
    }
}

/// Record the first `k` shared xattr ids of the inode whose xattr area
/// starts at `xoff`, each as an `XAttr` segment under `path`.
pub open spec fn shared_notes(
    img: Image,
    segs: Seq<SegView>,
    path: Seq<u8>,
    xoff: int,
    k: int,
) -> Result<Seq<SegView>, ImageError>
    decreases k,
{
    if k <= 0 {
        Ok(segs)
    } else {
        match shared_notes(img, segs, path, xoff, k - 1) {
            Err(e) => Err(e),
            Ok(sg) => {
                let s = img.data@;
                let id = crate::erofs::reader::le32(s, xoff + 12 + 4 * (k - 1));
                let off = img.sb.xattr_blkaddr * (1u64 << img.blkszbits) + id * 4;
                if !(off + 4 <= s.len() && off + crate::erofs::reader::xattr_total_at(s, off)
                    <= s.len()) {
                    Err(ImageError::TruncatedImage)
                } else {
                    match note_v(
                        sg,
                        off as u64,
                        crate::erofs::reader::xattr_total_at(s, off) as u64,
                        SegmentKind::XAttr,
                        Some(path),
                    ) {
                        Err(e) => Err(e),
                        Ok(r) => Ok(r.0),
                    }
                }
            },
        }
    }
}

/// The work items of one directory block, straight from its bytes: each
/// non-dot entry's inode under its joined path, in entry order.
pub open spec fn block_children(block: Seq<u8>, base: Seq<u8>, i: int) -> Seq<(u64, Seq<u8>)>
    decreases i,
{
    if i <= 0 {
        Seq::empty()
    } else {
        let n = crate::erofs::reader::dirblock_count(block);
        let name = block.subrange(
            crate::erofs::reader::dirent_name_off(block, i - 1),
            crate::erofs::reader::dirent_name_end(block, i - 1, n),
        );
        block_children(block, base, i - 1) + (if non_dot(name) {
            seq![
                (
                    crate::erofs::reader::le64(block, 12 * (i - 1)),
                    crate::image::path_join(base, name),
                ),
            ]
        } else {
            Seq::empty()
        })
    }
}

/// Walk the first `k` out-of-line directory blocks of an inode: queue each
/// block's children and record the block, in block order.
pub open spec fn dir_block_notes(
    img: Image,
    segs: Seq<SegView>,
    path: Seq<u8>,
    u: u32,
    k: int,
) -> Result<(Seq<SegView>, Seq<(u64, Seq<u8>)>), ImageError>
    decreases k,
{
    if k <= 0 {
        Ok((segs, Seq::empty()))
    } else {
        match dir_block_notes(img, segs, path, u, k - 1) {
            Err(e) => Err(e),
            Ok((sg, ps)) => {
                let s = img.data@;
                let bs = (1u64 << img.blkszbits) as int;
                let b = u + (k - 1);
                if !(b * bs + bs <= s.len()) {
                    Err(ImageError::TruncatedImage)
                } else {
                    let bytes = s.subrange(b * bs, b * bs + bs);
                    if !crate::erofs::reader::dirblock_ok(bytes) {
                        Err(ImageError::TruncatedImage)
                    } else {
                        let ps2 = ps + block_children(
                            bytes,
                            path,
                            crate::erofs::reader::dirblock_count(bytes),
                        );
                        match note_v(
                            sg,
                            (b * bs) as u64,
                            bs as u64,
                            SegmentKind::DirectoryBlock,
                            Some(path),
                        ) {
                            Err(e) => Err(e),
                            Ok(r) => Ok((r.0, ps2)),
                        }
                    }
                }
            },
        }
    }
}

/// Record the first `k` out-of-line data blocks of an inode.
pub open spec fn data_block_notes(
    img: Image,
    segs: Seq<SegView>,
    path: Seq<u8>,
    u: u32,
    k: int,
) -> Result<Seq<SegView>, ImageError>
    decreases k,
{
    if k <= 0 {
        Ok(segs)
    } else {
        match data_block_notes(img, segs, path, u, k - 1) {
            Err(e) => Err(e),
            Ok(sg) => {
                let s = img.data@;
                let bs = (1u64 << img.blkszbits) as int;
                let b = u + (k - 1);
                if !(b * bs + bs <= s.len()) {
                    Err(ImageError::TruncatedImage)
                } else {
                    match note_v(
                        sg,
                        (b * bs) as u64,
                        bs as u64,
                        SegmentKind::DataBlock,
                        Some(path),
                    ) {
                        Err(e) => Err(e),
                        Ok(r) => Ok(r.0),
                    }
                }
            },
        }
    }
}

/// One step of the walk: take the top work item, record its inode, and on
/// a first visit record its shared xattrs and blocks and queue its
/// children, exactly as the walker's loop body does.
pub open spec fn walk_step(img: Image, segs: Seq<SegView>, stack: Seq<(u64, Seq<u8>)>) -> WalkState {
    if stack.len() == 0 {
        WalkState::Done(segs)
    } else {
        let nid = stack.last().0;
        let path = stack.last().1;
        let stack0 = stack.drop_last();
        let s = img.data@;
        let bits = img.blkszbits;
        let bs = (1u64 << bits) as int;
        let base = crate::erofs::reader::inode_base(img.sb.meta_blkaddr, bits, nid);
        if !crate::erofs::reader::inode_fits(s, img.sb.meta_blkaddr, bits, nid) {
            WalkState::Fail(inode_fail_error(s, base))
        } else {
            let hs = crate::erofs::reader::inode_hsize(s, base);
            let ic = crate::erofs::reader::le16(s, base + 2);
            let area = crate::erofs::reader::xattr_area_len(ic);
            let ilen = crate::erofs::reader::inode_inline_len(s, base, bits);
            let kind = if crate::erofs::format::spec_inode_layout_of(
                crate::erofs::reader::le16(s, base),
            ) is Extended {
                SegmentKind::ExtendedInode
            } else {
                SegmentKind::CompactInode
            };
            match note_v(segs, base as u64, (hs + area + ilen) as u64, kind, Some(path)) {
                Err(e) => WalkState::Fail(e),
                Ok((segs1, true)) => WalkState::Running(segs1, stack0),
                Ok((segs1, false)) => {
                    let sc: int = if ic == 0 {
                        0
                    } else {
                        s[base + hs + 4] as int
                    };
                    match shared_notes(img, segs1, path, base + hs, sc) {
                        Err(e) => WalkState::Fail(e),
                        Ok(segs2) => {
                            let is_dir = (crate::erofs::reader::le16(s, base + 4)
                                & crate::erofs::format::S_IFMT) == crate::erofs::format::S_IFDIR;
                            let size = crate::erofs::reader::inode_size_of(s, base);
                            let layout = crate::erofs::format::spec_data_layout_of(
                                crate::erofs::reader::le16(s, base),
                            )->Ok_0;
                            let u = crate::erofs::reader::le32(s, base + 16);
                            let n = crate::erofs::reader::spec_block_count(size, layout, bits);
                            if u + n > u32::MAX + 1 {
                                WalkState::Fail(ImageError::TruncatedImage)
                            } else if is_dir {
                                let inline = s.subrange(base + hs + area, base + hs + area + ilen);
                                if ilen > 0 && !crate::erofs::reader::dirblock_ok(inline) {
                                    WalkState::Fail(ImageError::TruncatedImage)
                                } else {
                                    let inline_ps: Seq<(u64, Seq<u8>)> = if ilen > 0 {
                                        block_children(
                                            inline,
                                            path,
                                            crate::erofs::reader::dirblock_count(inline),
                                        )
                                    } else {
                                        Seq::empty()
                                    };
                                    match dir_block_notes(img, segs2, path, u, n) {
                                        Err(e) => WalkState::Fail(e),
                                        Ok((segs3, ps)) => WalkState::Running(
                                            segs3,
                                            stack0 + inline_ps + ps,
                                        ),
                                    }
                                }
                            } else {
                                match data_block_notes(img, segs2, path, u, n) {
                                    Err(e) => WalkState::Fail(e),
                                    Ok(segs3) => WalkState::Running(segs3, stack0),
                                }
                            }
                        },
                    }
                },
            }
        }
    }
}

/// Where the walk begins: the header and superblock recorded, the root
/// inode queued under the path `/`.
pub open spec fn walk_init(img: Image) -> WalkState {
    WalkState::Running(
        seq![
            SegView { offset: 0, size: 32, kind: SegmentKind::Header, paths: Seq::empty() },
            SegView {
                offset: 1024,
                size: 128,
                kind: SegmentKind::Superblock,
                paths: Seq::empty(),
            },
        ],
        seq![(img.sb.root_nid as u64, seq![47u8])],
    )
}

/// The walk after `k` steps. Once it is done or failed it stays so.
pub open spec fn walk_iter(img: Image, k: nat) -> WalkState
    decreases k,
{
    if k == 0 {
        walk_init(img)
    } else {
        match walk_iter(img, (k - 1) as nat) {
            WalkState::Running(sg, st) => walk_step(img, sg, st),
            WalkState::Done(sg) => WalkState::Done(sg),
            WalkState::Fail(e) => WalkState::Fail(e),
        }
    }
}

/// A finished or failed walk never moves again.
pub proof fn lemma_walk_stable(img: Image, k1: nat, k2: nat)
    requires
        k1 <= k2,
        !(walk_iter(img, k1) is Running),
    ensures
        walk_iter(img, k2) == walk_iter(img, k1),
    decreases k2,
{
    if k2 > k1 {
        lemma_walk_stable(img, k1, (k2 - 1) as nat);
    }
}

/// The walk's outcome is unique: whatever step counts two finished runs
/// used, they saw the same result.
pub proof fn lemma_walk_outcome_unique(img: Image, k1: nat, k2: nat)
    requires
        !(walk_iter(img, k1) is Running),
        !(walk_iter(img, k2) is Running),
    ensures
        walk_iter(img, k1) == walk_iter(img, k2),
{
    if k1 <= k2 {
        lemma_walk_stable(img, k1, k2);
    } else {
        lemma_walk_stable(img, k2, k1);
    }
}


/// The count of leading segments is a position within the list.
proof fn lemma_seg_pos_range(v: Seq<Segment>, p: int)
    ensures
        0 <= seg_pos(v, p) <= v.len(),
    decreases v.len(),
{
    if v.len() > 0 {
        lemma_seg_pos_range(v.drop_first(), p);
    }
}

/// The view of an optional path argument.
pub open spec fn opt_view(p: Option<Vec<u8>>) -> Option<Seq<u8>> {
    match p {
        Some(pa) => Some(pa@),
        None => None,
    }
}

/// What `note` did to the list is exactly `note_v` of its view.
proof fn lemma_note_bridge(
    v0: Seq<Segment>,
    v1: Seq<Segment>,
    offset: u64,
    size: u64,
    kind: SegmentKind,
    path: Option<Vec<u8>>,
    b: bool,
)
    requires
        b ==> ({
            let p = seg_pos(v0, offset as int);
            let added: Seq<Vec<u8>> = match path {
                Some(pa) => seq![pa],
                None => Seq::empty(),
            };
            seg_found(v0, offset as int) && v0[p - 1].kind == kind && v0[p - 1].size == size
                && v1.len() == v0.len() && (forall|j: int|
                0 <= j < v0.len() && j != p - 1 ==> v1[j] == v0[j]) && v1[p - 1].offset == offset
                && v1[p - 1].kind == kind && v1[p - 1].size == size && v1[p - 1].paths@ == v0[p
                - 1].paths@ + added
        }),
        !b ==> ({
            let p = seg_pos(v0, offset as int);
            let added: Seq<Vec<u8>> = match path {
                Some(pa) => seq![pa],
                None => Seq::empty(),
            };
            !seg_found(v0, offset as int) && 0 <= p <= v0.len() && v1.len() == v0.len() + 1 && (
            forall|j: int| 0 <= j < p ==> v1[j] == v0[j]) && (forall|j: int|
                p <= j < v0.len() ==> v1[j + 1] == v0[j]) && v1[p].offset == offset && v1[p].kind
                == kind && v1[p].size == size && v1[p].paths@ == added
        }),
    ensures
        note_v(segs_deep(v0), offset, size, kind, opt_view(path)) == Ok::<
            (Seq<SegView>, bool),
            ImageError,
        >((segs_deep(v1), b)),
{
    lemma_seg_pos_deep(v0, offset as int);
    lemma_seg_pos_range(v0, offset as int);
    let p = seg_pos(v0, offset as int);
    let dv0 = segs_deep(v0);
    let addedv: Seq<Seq<u8>> = match opt_view(path) {
        Some(pa) => seq![pa],
        None => Seq::empty(),
    };
    if b {
        assert(dv0[p - 1].offset == offset);
        let expect = dv0.update(
            p - 1,
            SegView { offset, size, kind, paths: dv0[p - 1].paths + addedv },
        );
        assert forall|j: int| 0 <= j < v1.len() implies #[trigger] segs_deep(v1)[j]
            == expect[j] by {
            if j != p - 1 {
                assert(v1[j] == v0[j]);
            } else {
                assert(seg_view(v1[p - 1]).paths =~= dv0[p - 1].paths + addedv);
            }
        }
        assert(segs_deep(v1) =~= expect);
    } else {
        assert(!(p >= 1 && dv0[p - 1].offset == offset));
        let expect = dv0.insert(p, SegView { offset, size, kind, paths: addedv });
        dv0.insert_ensures(p, SegView { offset, size, kind, paths: addedv });
        assert forall|j: int| 0 <= j < v1.len() implies #[trigger] segs_deep(v1)[j]
            == expect[j] by {
            if j < p {
                assert(v1[j] == v0[j]);
            } else if j > p {
                assert(v1[j] == v0[j - 1]);
            } else {
                assert(seg_view(v1[p]).paths =~= addedv);
            }
        }
        assert(segs_deep(v1) =~= expect);
    }
}

/// Decoded directory entries queue exactly the children their bytes name.
proof fn lemma_children_bridge(
    entries: Seq<crate::erofs::reader::DirectoryEntry>,
    block: Seq<u8>,
    base: Seq<u8>,
    i: int,
)
    requires
        crate::erofs::reader::dirblock_matches(entries, block),
        0 <= i <= entries.len(),
    ensures
        queued_children(entries, base, i) == block_children(block, base, i),
    decreases i,
{
    if i > 0 {
        lemma_children_bridge(entries, block, base, i - 1);
        assert(crate::erofs::reader::dirent_matches(
            entries[i - 1],
            block,
            i - 1,
            crate::erofs::reader::dirblock_count(block),
        ));
    }
}


/// A failed prefix fails the whole run of shared-xattr notes.
proof fn lemma_shared_notes_err(
    img: Image,
    segs: Seq<SegView>,
    path: Seq<u8>,
    xoff: int,
    k1: int,
    k2: int,
)
    requires
        k1 <= k2,
        shared_notes(img, segs, path, xoff, k1) is Err,
    ensures
        shared_notes(img, segs, path, xoff, k2) == shared_notes(img, segs, path, xoff, k1),
    decreases k2,
{
    if k2 > k1 {
        lemma_shared_notes_err(img, segs, path, xoff, k1, k2 - 1);
    }
}

/// A failed prefix fails the whole run of directory-block notes.
proof fn lemma_dir_block_notes_err(
    img: Image,
    segs: Seq<SegView>,
    path: Seq<u8>,
    u: u32,
    k1: int,
    k2: int,
)
    requires
        k1 <= k2,
        dir_block_notes(img, segs, path, u, k1) is Err,
    ensures
        dir_block_notes(img, segs, path, u, k2) == dir_block_notes(img, segs, path, u, k1),
    decreases k2,
{
    if k2 > k1 {
        lemma_dir_block_notes_err(img, segs, path, u, k1, k2 - 1);
    }
}

/// A failed prefix fails the whole run of data-block notes.
proof fn lemma_data_block_notes_err(
    img: Image,
    segs: Seq<SegView>,
    path: Seq<u8>,
    u: u32,
    k1: int,
    k2: int,
)
    requires
        k1 <= k2,
        data_block_notes(img, segs, path, u, k1) is Err,
    ensures
        data_block_notes(img, segs, path, u, k2) == data_block_notes(img, segs, path, u, k1),
    decreases k2,
{
    if k2 > k1 {
        lemma_data_block_notes_err(img, segs, path, u, k1, k2 - 1);
    }
}


/// The shared-xattr notes depend only on the image bytes and superblock
/// fields, which well-formedness pins to the bytes.
proof fn lemma_shared_notes_congruent(
    img1: Image,
    img2: Image,
    segs: Seq<SegView>,
    path: Seq<u8>,
    xoff: int,
    k: int,
)
    requires
        img1.wf(),
        img2.wf(),
        img1.data@ == img2.data@,
    ensures
        shared_notes(img1, segs, path, xoff, k) == shared_notes(img2, segs, path, xoff, k),
    decreases k,
{
    if k > 0 {
        lemma_shared_notes_congruent(img1, img2, segs, path, xoff, k - 1);
    }
}

/// The directory-block notes depend only on the image bytes and pinned
/// fields.
proof fn lemma_dir_block_notes_congruent(
    img1: Image,
    img2: Image,
    segs: Seq<SegView>,
    path: Seq<u8>,
    u: u32,
    k: int,
)
    requires
        img1.wf(),
        img2.wf(),
        img1.data@ == img2.data@,
    ensures
        dir_block_notes(img1, segs, path, u, k) == dir_block_notes(img2, segs, path, u, k),
    decreases k,
{
    if k > 0 {
        lemma_dir_block_notes_congruent(img1, img2, segs, path, u, k - 1);
    }
}

/// The data-block notes depend only on the image bytes and pinned fields.
proof fn lemma_data_block_notes_congruent(
    img1: Image,
    img2: Image,
    segs: Seq<SegView>,
    path: Seq<u8>,
    u: u32,
    k: int,
)
    requires
        img1.wf(),
        img2.wf(),
        img1.data@ == img2.data@,
    ensures
        data_block_notes(img1, segs, path, u, k) == data_block_notes(img2, segs, path, u, k),
    decreases k,
{
    if k > 0 {
        lemma_data_block_notes_congruent(img1, img2, segs, path, u, k - 1);
    }
}

/// The whole walk depends only on the image bytes: two well-formed images
/// over the same bytes walk identically.
pub proof fn lemma_walk_congruent(img1: Image, img2: Image, k: nat)
    requires
        img1.wf(),
        img2.wf(),
        img1.data@ == img2.data@,
    ensures
        walk_iter(img1, k) == walk_iter(img2, k),
    decreases k,
{
    if k > 0 {
        lemma_walk_congruent(img1, img2, (k - 1) as nat);
        match walk_iter(img1, (k - 1) as nat) {
            WalkState::Running(sg, st) => {
                if st.len() > 0 {
                    let nid = st.last().0;
                    let path = st.last().1;
                    let base = crate::erofs::reader::inode_base(
                        img1.sb.meta_blkaddr,
                        img1.blkszbits,
                        nid,
                    );
                    let s = img1.data@;
                    let hs = crate::erofs::reader::inode_hsize(s, base);
                    let ic = crate::erofs::reader::le16(s, base + 2);
                    let sc: int = if ic == 0 {
                        0
                    } else {
                        s[base + hs + 4] as int
                    };
                    lemma_shared_notes_congruent(img1, img2, Seq::empty(), path, base + hs, sc);
                    let u = crate::erofs::reader::le32(s, base + 16);
                    let size = crate::erofs::reader::inode_size_of(s, base);
                    let layout = crate::erofs::format::spec_data_layout_of(
                        crate::erofs::reader::le16(s, base),
                    )->Ok_0;
                    let n = crate::erofs::reader::spec_block_count(size, layout, img1.blkszbits);
                    assert forall|sg2: Seq<SegView>| true implies #[trigger] shared_notes(
                        img1,
                        sg2,
                        path,
                        base + hs,
                        sc,
                    ) == shared_notes(img2, sg2, path, base + hs, sc) by {
                        lemma_shared_notes_congruent(img1, img2, sg2, path, base + hs, sc);
                    }
                    assert forall|sg2: Seq<SegView>| true implies #[trigger] dir_block_notes(
                        img1,
                        sg2,
                        path,
                        u,
                        n,
                    ) == dir_block_notes(img2, sg2, path, u, n) by {
                        lemma_dir_block_notes_congruent(img1, img2, sg2, path, u, n);
                    }
                    assert forall|sg2: Seq<SegView>| true implies #[trigger] data_block_notes(
                        img1,
                        sg2,
                        path,
                        u,
                        n,
                    ) == data_block_notes(img2, sg2, path, u, n) by {
                        lemma_data_block_notes_congruent(img1, img2, sg2, path, u, n);
                    }
                    assert(walk_step(img1, sg, st) == walk_step(img2, sg, st));
                } else {
                    assert(walk_step(img1, sg, st) == walk_step(img2, sg, st));
                }
            },
            WalkState::Done(_) => {},
            WalkState::Fail(_) => {},
        }
    } else {
        assert(walk_init(img1) == walk_init(img2));
    }
}

/// A walk that finishes never fails: together with `visit_image`'s `Err`
/// clause this owes success whenever the image's walk finishes.
pub proof fn lemma_walk_done_excludes_fail(img: Image, k1: nat, k2: nat)
    requires
        walk_iter(img, k1) is Done,
    ensures
        !(walk_iter(img, k2) is Fail),
{
    if walk_iter(img, k2) is Fail {
        lemma_walk_outcome_unique(img, k1, k2);
    }
}

/// The walk's finished outcome is a function of the image bytes alone:
/// any two well-formed walks over the same bytes that finish, finish the
/// same — the segment list and every path list included.
pub proof fn lemma_walk_deterministic(img1: Image, img2: Image, k1: nat, k2: nat)
    requires
        img1.wf(),
        img2.wf(),
        img1.data@ == img2.data@,
        !(walk_iter(img1, k1) is Running),
        !(walk_iter(img2, k2) is Running),
    ensures
        walk_iter(img1, k1) == walk_iter(img2, k2),
{
    lemma_walk_congruent(img1, img2, k2);
    lemma_walk_outcome_unique(img1, k1, k2);
}

/// Walk the image from its root inode and classify every addressed region:
/// the header and superblock, every reachable inode, shared xattr, and
/// data or directory block. The result is ordered by offset; hardlinked
/// inodes and shared xattrs appear once, carrying every path that reached
/// them. The returned list is pinned to the walk itself: it is the unique
/// outcome of iterating `walk_step` from `walk_init`, and a failure is the
/// walk's own failure.
#[verifier::rlimit(100)]
#[verifier::spinoff_prover]
pub fn visit_image(img: &Image) -> (r: Result<Vec<Segment>, ImageError>)
    requires
        img.wf(),
    ensures
        match r {
            Ok(v) => segs_sorted(v@) && segs_within(v@, img.data@.len() as int) && seg_has_empty(
                v@,
                0,
                SegmentKind::Header,
                32,
            ) && seg_has_empty(v@, 1024, SegmentKind::Superblock, 128) && (forall|i: int|
                0 <= i < v@.len() ==> seg_valid(*img, #[trigger] v@[i])) && (exists|k: nat|
                #[trigger] walk_iter(*img, k) == WalkState::Done(segs_deep(v@))),
            Err(e) => exists|k: nat| #[trigger] walk_iter(*img, k) == WalkState::Fail(e),
        },
{
    let _data_len: usize = img.data.len();
    let ghost len = img.data@.len() as int;
    let bits: u8 = img.blkszbits;
    let bs: u64 = 1u64 << bits;
    proof {
        assert(len <= usize::MAX);
    }
    proof {
        assert(1u64 << bits >= 1 && (1u64 << bits) <= 0x8000_0000u64) by (bit_vector)
            requires
                bits < 32,
        ;
    }
    let mut segs: Vec<Segment> = Vec::new();
    match note(&mut segs, 0, 32, SegmentKind::Header, None) {
        Ok(b) => {
            proof {
                assert(!b);
                assert(segs@[0].offset == 0 && segs@[0].kind == SegmentKind::Header && segs@[
                    0].size == 32 && segs@[0].paths@ == Seq::<Vec<u8>>::empty());
                assert(seg_has_empty(segs@, 0, SegmentKind::Header, 32));
            }
        },
        Err(_) => {
            proof {
                assert(false);
            }
            return Err(ImageError::SegmentMismatch);
        },
    }
    let ghost g1 = segs@;
    match note(&mut segs, 1024, 128, SegmentKind::Superblock, None) {
        Ok(b) => {
            proof {
                reveal_with_fuel(seg_pos, 2);
                assert(g1.drop_first() =~= Seq::<Segment>::empty());
                assert(seg_pos(g1, 1024) == 1);
                assert(!b);
                assert(segs@[0] == g1[0]);
                assert(segs@[1].offset == 1024 && segs@[1].kind == SegmentKind::Superblock
                    && segs@[1].size == 128 && segs@[1].paths@ == Seq::<Vec<u8>>::empty());
                assert(seg_has_empty(segs@, 1024, SegmentKind::Superblock, 128));
            }
        },
        Err(_) => {
            proof {
                reveal_with_fuel(seg_pos, 2);
                assert(g1.drop_first() =~= Seq::<Segment>::empty());
                assert(seg_pos(g1, 1024) == 1);
                assert(false);
            }
            return Err(ImageError::SegmentMismatch);
        },
    }
    proof {
        assert forall|j: int| 0 <= j < segs@.len() implies seg_valid(
            *img,
            #[trigger] segs@[j],
        ) by {
            if j != 0 {
                assert(j == 1);
            }
        }
    }
    let mut stack: Vec<(u64, Vec<u8>)> = Vec::new();
    let mut root_path: Vec<u8> = Vec::new();
    root_path.push(47);
    stack.push((img.sb.root_nid as u64, root_path));
    let ghost mut kk: nat = 0;
    proof {
        lemma_segs_len_bound(segs@, len);
        assert(seg_view(segs@[0]).paths =~= Seq::<Seq<u8>>::empty());
        assert(seg_view(segs@[1]).paths =~= Seq::<Seq<u8>>::empty());
        assert(segs_deep(segs@) =~= seq![
            SegView { offset: 0, size: 32, kind: SegmentKind::Header, paths: Seq::empty() },
            SegView {
                offset: 1024,
                size: 128,
                kind: SegmentKind::Superblock,
                paths: Seq::empty(),
            },
        ]);
        assert(stack@[0].1@ =~= seq![47u8]);
        assert(stack_deep(stack@) =~= seq![(img.sb.root_nid as u64, seq![47u8])]);
        assert(walk_iter(*img, 0) == WalkState::Running(segs_deep(segs@), stack_deep(stack@)));
    }
    loop
        invariant
            img.wf(),
            segs_sorted(segs@),
            segs_within(segs@, len),
            segs@.len() <= len + 1,
            seg_has_empty(segs@, 0, SegmentKind::Header, 32),
            seg_has_empty(segs@, 1024, SegmentKind::Superblock, 128),
            forall|j: int| 0 <= j < segs@.len() ==> seg_valid(*img, #[trigger] segs@[j]),
            len == img.data@.len(),
            len <= usize::MAX,
            bits == img.blkszbits,
            bs == 1u64 << bits,
            bs >= 1,
            bs <= 0x8000_0000u64,
            walk_iter(*img, kk) == WalkState::Running(segs_deep(segs@), stack_deep(stack@)),
        ensures
            segs_sorted(segs@),
            segs_within(segs@, len),
            seg_has_empty(segs@, 0, SegmentKind::Header, 32),
            seg_has_empty(segs@, 1024, SegmentKind::Superblock, 128),
            forall|j: int| 0 <= j < segs@.len() ==> seg_valid(*img, #[trigger] segs@[j]),
            len == img.data@.len(),
            stack@.len() == 0,
            walk_iter(*img, kk) == WalkState::Running(segs_deep(segs@), stack_deep(stack@)),
        decreases len + 1 - segs@.len(), stack@.len(),
    {
        let ghost dsegs_pre = segs_deep(segs@);
        let ghost dstack_pre = stack_deep(stack@);
        let (nid, path) = match stack.pop() {
            Some(w) => w,
            None => {
                proof {
                    assert(stack@.len() == 0);
                }
                break ;
            },
        };
        proof {
            assert(dstack_pre.len() > 0);
            assert(dstack_pre.last() == (nid, path@));
            assert(stack_deep(stack@) =~= dstack_pre.drop_last());
        }
        let ghost dstack0 = stack_deep(stack@);
        let ino = match img.inode(nid) {
            Ok(i) => i,
            Err(e) => {
                proof {
                    assert(inode_fail_error(img.data@, crate::erofs::reader::inode_base(
                        img.sb.meta_blkaddr,
                        bits,
                        nid,
                    )) == e);
                    assert(walk_step(*img, dsegs_pre, dstack_pre) == WalkState::Fail(e));
                    assert(walk_iter(*img, kk + 1) == WalkState::Fail(e));
                }
                return Err(e);
            },
        };
        let kind = match &ino.header {
            InodeHeader::Compact(_) => SegmentKind::CompactInode,
            InodeHeader::Extended(_) => SegmentKind::ExtendedInode,
        };
        let ghost gpre = segs@;
        proof {
            let s = img.data@;
            let base = crate::erofs::reader::inode_base(img.sb.meta_blkaddr, bits, nid);
            let meta = (img.sb.meta_blkaddr * (1u64 << img.blkszbits)) as int;
            assert(ino.offset as int == base);
            assert(base == meta + (nid as int) * 32);
            assert(((nid as int) * 32) % 32 == 0 && ((nid as int) * 32) / 32 == nid as int)
                by (nonlinear_arith);
            match ino.header {
                InodeHeader::Compact(_) => {
                    assert(crate::erofs::reader::inode_hsize(s, base) == 32);
                },
                InodeHeader::Extended(_) => {
                    assert(crate::erofs::reader::inode_hsize(s, base) == 64);
                },
            }
            assert(seg_tuple_valid(*img, ino.offset, ino.total_len, kind));
            assert(kind == (if crate::erofs::format::spec_inode_layout_of(
                crate::erofs::reader::le16(s, base),
            ) is Extended {
                SegmentKind::ExtendedInode
            } else {
                SegmentKind::CompactInode
            }));
            assert(ino.total_len == (crate::erofs::reader::inode_hsize(s, base)
                + crate::erofs::reader::xattr_area_len(crate::erofs::reader::le16(s, base + 2))
                + crate::erofs::reader::inode_inline_len(s, base, bits)) as u64);
        }
        let pcl = vstd::slice::slice_to_vec(path.as_slice());
        let ghost pclg = pcl;
        let seen = match note(&mut segs, ino.offset, ino.total_len, kind, Some(pcl)) {
            Ok(b) => b,
            Err(e) => {
                proof {
                    lemma_seg_pos_deep(gpre, ino.offset as int);
                    lemma_seg_pos(gpre, ino.offset as int);
                    assert(note_v(dsegs_pre, ino.offset, ino.total_len, kind, Some(path@))
                        == Err::<(Seq<SegView>, bool), ImageError>(ImageError::SegmentMismatch));
                    assert(walk_step(*img, dsegs_pre, dstack_pre) == WalkState::Fail(e));
                    assert(walk_iter(*img, kk + 1) == WalkState::Fail(e));
                }
                return Err(e);
            },
        };
        proof {
            lemma_seg_pos(gpre, ino.offset as int);
            let p = seg_pos(gpre, ino.offset as int);
            assert forall|j: int| 0 <= j < segs@.len() implies seg_valid(
                *img,
                #[trigger] segs@[j],
            ) by {
                if seen {
                    if j != p - 1 {
                        assert(segs@[j] == gpre[j]);
                    }
                } else {
                    if j < p {
                        assert(segs@[j] == gpre[j]);
                    } else if j > p {
                        assert(segs@[j] == gpre[j - 1]);
                    }
                }
            }
            lemma_note_bridge(gpre, segs@, ino.offset, ino.total_len, kind, Some(pclg), seen);
        }
        let ghost dsegs1 = segs_deep(segs@);
        if seen {
            proof {
                assert(walk_step(*img, dsegs_pre, dstack_pre) == WalkState::Running(
                    dsegs1,
                    dstack0,
                ));
                kk = kk + 1;
                assert(walk_iter(*img, kk) == WalkState::Running(
                    segs_deep(segs@),
                    stack_deep(stack@),
                ));
                lemma_segs_len_bound(segs@, len);
            }
            continue ;
        }
        let ghost seg_floor = segs@.len();
        let ghost scg: int = match &ino.xattrs {
            Some(xx) => xx.shared@.len() as int,
            None => 0,
        };
        proof {
            let s = img.data@;
            let base = ino.offset as int;
            let hs = crate::erofs::reader::inode_hsize(s, base);
            let ic = crate::erofs::reader::le16(s, base + 2);
            assert(scg == (if ic == 0 {
                0int
            } else {
                s[base + hs + 4] as int
            }));
        }
        match &ino.xattrs {
            Some(x) => {
                let mut k: usize = 0;
                while k < x.shared.len()
                    invariant
                        img.wf(),
                        segs_sorted(segs@),
                        segs_within(segs@, len),
                        segs@.len() >= seg_floor,
                        seg_has_empty(segs@, 0, SegmentKind::Header, 32),
                        seg_has_empty(segs@, 1024, SegmentKind::Superblock, 128),
                        forall|j: int|
                            0 <= j < segs@.len() ==> seg_valid(*img, #[trigger] segs@[j]),
                        len == img.data@.len(),
                        bits == img.blkszbits,
                        walk_iter(*img, kk) == WalkState::Running(dsegs_pre, dstack_pre),
                        dstack_pre.len() > 0,
                        dstack_pre.last() == (nid, path@),
                        dstack0 == dstack_pre.drop_last(),
                        stack_deep(stack@) == dstack0,
                        crate::erofs::reader::inode_fits(
                            img.data@,
                            img.sb.meta_blkaddr,
                            bits,
                            nid,
                        ),
                        ino.offset as int == crate::erofs::reader::inode_base(
                            img.sb.meta_blkaddr,
                            bits,
                            nid,
                        ),
                        crate::erofs::reader::inode_matches(
                            ino,
                            img.data@,
                            ino.offset as int,
                            bits,
                        ),
                        ino.xattrs == Some(*x),
                        kind == (if crate::erofs::format::spec_inode_layout_of(
                            crate::erofs::reader::le16(img.data@, ino.offset as int),
                        ) is Extended {
                            SegmentKind::ExtendedInode
                        } else {
                            SegmentKind::CompactInode
                        }),
                        ino.total_len == (crate::erofs::reader::inode_hsize(
                            img.data@,
                            ino.offset as int,
                        ) + crate::erofs::reader::xattr_area_len(
                            crate::erofs::reader::le16(img.data@, ino.offset as int + 2),
                        ) + crate::erofs::reader::inode_inline_len(
                            img.data@,
                            ino.offset as int,
                            bits,
                        )) as u64,
                        note_v(dsegs_pre, ino.offset, ino.total_len, kind, Some(path@)) == Ok::<
                            (Seq<SegView>, bool),
                            ImageError,
                        >((dsegs1, false)),
                        scg == x.shared@.len() as int,
                        scg == (if crate::erofs::reader::le16(img.data@, ino.offset as int + 2)
                            == 0 {
                            0int
                        } else {
                            img.data@[ino.offset as int + crate::erofs::reader::inode_hsize(
                                img.data@,
                                ino.offset as int,
                            ) + 4] as int
                        }),
                        0 <= k <= x.shared@.len(),
                        shared_notes(
                            *img,
                            dsegs1,
                            path@,
                            ino.offset as int + crate::erofs::reader::inode_hsize(
                                img.data@,
                                ino.offset as int,
                            ),
                            k as int,
                        ) == Ok::<Seq<SegView>, ImageError>(segs_deep(segs@)),
                    decreases x.shared@.len() - k,
                {
                    let ghost xoffb = ino.offset as int + crate::erofs::reader::inode_hsize(
                        img.data@,
                        ino.offset as int,
                    );
                    let id = x.shared[k];
                    proof {
                        assert(id == crate::erofs::reader::le32(img.data@, xoffb + 12 + 4 * (
                        k as int)));
                    }
                    let sx = match img.shared_xattr(id) {
                        Ok(sx) => sx,
                        Err(e) => {
                            proof {
                                assert(shared_notes(
                                    *img,
                                    dsegs1,
                                    path@,
                                    xoffb,
                                    k as int + 1,
                                ) == Err::<Seq<SegView>, ImageError>(ImageError::TruncatedImage));
                                lemma_shared_notes_err(
                                    *img,
                                    dsegs1,
                                    path@,
                                    xoffb,
                                    k as int + 1,
                                    scg,
                                );
                                assert(walk_step(*img, dsegs_pre, dstack_pre)
                                    == WalkState::Fail(e));
                                assert(walk_iter(*img, kk + 1) == WalkState::Fail(e));
                            }
                            return Err(e);
                        },
                    };
                    let xbits: u8 = img.blkszbits;
                    let xbs: u64 = 1u64 << xbits;
                    proof {
                        assert((1u64 << xbits) >= 1 && (1u64 << xbits) <= 0x8000_0000u64)
                            by (bit_vector)
                            requires
                                xbits < 32,
                        ;
                        assert((img.sb.xattr_blkaddr as int) * (xbs as int) <= 0xffff_ffff
                            * 0x8000_0000int) by (nonlinear_arith)
                            requires
                                img.sb.xattr_blkaddr as int <= 0xffff_ffffint,
                                xbs as int <= 0x8000_0000int,
                                img.sb.xattr_blkaddr as int >= 0,
                                xbs as int >= 1,
                        ;
                        crate::erofs::reader::lemma_xattr_record_aligned(
                            sx.header.name_len,
                            sx.header.value_size,
                        );
                    }
                    let xoff128: u128 = (img.sb.xattr_blkaddr as u128) * (xbs as u128) + (
                    id as u128) * 4;
                    if xoff128 > u64::MAX as u128 {
                        proof {
                            assert(false);
                        }
                        return Err(ImageError::TruncatedImage);
                    }
                    let xsize: u64 = 4 + sx.suffix.len() as u64 + sx.value.len() as u64
                        + sx.padding.len() as u64;
                    let ghost gx = segs@;
                    proof {
                        let s = img.data@;
                        let xoffi = img.sb.xattr_blkaddr * (1u64 << img.blkszbits) + id * 4;
                        assert(xoff128 as int == xoffi);
                        assert((xoff128 as u64) as int == xoffi);
                        assert(xsize as int == crate::erofs::reader::xattr_total_at(s, xoffi));
                        assert(seg_tuple_valid(*img, xoff128 as u64, xsize, SegmentKind::XAttr));
                    }
                    let xpcl = vstd::slice::slice_to_vec(path.as_slice());
                    let ghost xpclg = xpcl;
                    let noted = match note(
                        &mut segs,
                        xoff128 as u64,
                        xsize,
                        SegmentKind::XAttr,
                        Some(xpcl),
                    ) {
                        Ok(b) => b,
                        Err(e) => {
                            proof {
                                lemma_seg_pos_deep(gx, (xoff128 as u64) as int);
                                lemma_seg_pos(gx, (xoff128 as u64) as int);
                                assert(note_v(
                                    segs_deep(gx),
                                    xoff128 as u64,
                                    xsize,
                                    SegmentKind::XAttr,
                                    Some(path@),
                                ) == Err::<(Seq<SegView>, bool), ImageError>(
                                    ImageError::SegmentMismatch,
                                ));
                                assert(shared_notes(
                                    *img,
                                    dsegs1,
                                    path@,
                                    xoffb,
                                    k as int + 1,
                                ) == Err::<Seq<SegView>, ImageError>(e));
                                lemma_shared_notes_err(
                                    *img,
                                    dsegs1,
                                    path@,
                                    xoffb,
                                    k as int + 1,
                                    scg,
                                );
                                assert(walk_step(*img, dsegs_pre, dstack_pre)
                                    == WalkState::Fail(e));
                                assert(walk_iter(*img, kk + 1) == WalkState::Fail(e));
                            }
                            return Err(e);
                        },
                    };
                    proof {
                        lemma_seg_pos(gx, (xoff128 as u64) as int);
                        let p = seg_pos(gx, (xoff128 as u64) as int);
                        assert forall|j: int| 0 <= j < segs@.len() implies seg_valid(
                            *img,
                            #[trigger] segs@[j],
                        ) by {
                            if noted {
                                if j != p - 1 {
                                    assert(segs@[j] == gx[j]);
                                }
                            } else {
                                if j < p {
                                    assert(segs@[j] == gx[j]);
                                } else if j > p {
                                    assert(segs@[j] == gx[j - 1]);
                                }
                            }
                        }
                        lemma_note_bridge(
                            gx,
                            segs@,
                            xoff128 as u64,
                            xsize,
                            SegmentKind::XAttr,
                            Some(xpclg),
                            noted,
                        );
                        assert(shared_notes(*img, dsegs1, path@, xoffb, k as int + 1) == Ok::<
                            Seq<SegView>,
                            ImageError,
                        >(segs_deep(segs@)));
                    }
                    k = k + 1;
                }
            },
            None => {},
        }
        let ghost dsegs2 = segs_deep(segs@);
        proof {
            assert(shared_notes(
                *img,
                dsegs1,
                path@,
                ino.offset as int + crate::erofs::reader::inode_hsize(
                    img.data@,
                    ino.offset as int,
                ),
                scg,
            ) == Ok::<Seq<SegView>, ImageError>(dsegs2));
        }
        let is_dir = {
            let m = ino.mode();
            m & S_IFMT == S_IFDIR
        };
        let uu: u32 = ino.u();
        proof {
            assert(uu == crate::erofs::reader::le32(img.data@, ino.offset as int + 16));
            assert(is_dir == ((crate::erofs::reader::le16(img.data@, ino.offset as int + 4)
                & S_IFMT) == S_IFDIR));
        }
        let blocks = match ino.blocks(bits) {
            Ok(b) => b,
            Err(e) => {
                proof {
                    assert(walk_step(*img, dsegs_pre, dstack_pre) == WalkState::Fail(e));
                    assert(walk_iter(*img, kk + 1) == WalkState::Fail(e));
                }
                return Err(e);
            },
        };
        let ghost ng: int = blocks@.len() as int;
        proof {
            let s = img.data@;
            let base = ino.offset as int;
            assert(ng == crate::erofs::reader::spec_block_count(
                crate::erofs::reader::inode_size_of(s, base),
                crate::erofs::format::spec_data_layout_of(
                    crate::erofs::reader::le16(s, base),
                )->Ok_0,
                bits,
            ));
            assert(uu + ng <= u32::MAX + 1);
        }
        if is_dir {
            let ghost dstack_inl = stack_deep(stack@);
            let ghost inline_ps: Seq<(u64, Seq<u8>)> = Seq::empty();
            if ino.inline.len() > 0 {
                let db = match DirectoryBlock::decode(ino.inline.as_slice()) {
                    Ok(db) => db,
                    Err(e) => {
                        proof {
                            assert(walk_step(*img, dsegs_pre, dstack_pre) == WalkState::Fail(e));
                            assert(walk_iter(*img, kk + 1) == WalkState::Fail(e));
                        }
                        return Err(e);
                    },
                };
                let ghost st_pre = stack@;
                push_dir_entries(&mut stack, &db, path.as_slice());
                proof {
                    assert(crate::erofs::reader::dirblock_matches(db.entries@, ino.inline@));
                    lemma_children_bridge(
                        db.entries@,
                        ino.inline@,
                        path@,
                        db.entries@.len() as int,
                    );
                    let q = queued_children(db.entries@, path@, db.entries@.len() as int);
                    assert forall|j: int| 0 <= j < stack@.len() implies #[trigger] stack_deep(
                        stack@,
                    )[j] == (dstack0 + q)[j] by {
                        if j < st_pre.len() {
                            assert(stack@[j] == st_pre[j]);
                        } else {
                            let k0 = j - st_pre.len();
                            assert(stack@[st_pre.len() + k0].0 == q[k0].0 && stack@[st_pre.len()
                                + k0].1@ == q[k0].1);
                        }
                    }
                    assert(stack_deep(stack@) =~= dstack0 + q);
                }
            }
            let ghost inline_psv: Seq<(u64, Seq<u8>)> = if ino.inline@.len() > 0 {
                block_children(
                    ino.inline@,
                    path@,
                    crate::erofs::reader::dirblock_count(ino.inline@),
                )
            } else {
                Seq::empty()
            };
            proof {
                if ino.inline@.len() == 0 {
                    assert(stack_deep(stack@) =~= dstack0 + inline_psv);
                }
                assert(stack_deep(stack@) == dstack0 + inline_psv);
            }
            let mut k: usize = 0;
            while k < blocks.len()
                invariant
                    img.wf(),
                    segs_sorted(segs@),
                    segs_within(segs@, len),
                    segs@.len() >= seg_floor,
                    seg_has_empty(segs@, 0, SegmentKind::Header, 32),
                    seg_has_empty(segs@, 1024, SegmentKind::Superblock, 128),
                    forall|j: int|
                        0 <= j < segs@.len() ==> seg_valid(*img, #[trigger] segs@[j]),
                    len == img.data@.len(),
                    len <= usize::MAX,
                    bits == img.blkszbits,
                    bs == 1u64 << bits,
                    bs >= 1,
                    bs <= 0x8000_0000u64,
                    walk_iter(*img, kk) == WalkState::Running(dsegs_pre, dstack_pre),
                    dstack_pre.len() > 0,
                    dstack_pre.last() == (nid, path@),
                    dstack0 == dstack_pre.drop_last(),
                    crate::erofs::reader::inode_fits(img.data@, img.sb.meta_blkaddr, bits, nid),
                    ino.offset as int == crate::erofs::reader::inode_base(
                        img.sb.meta_blkaddr,
                        bits,
                        nid,
                    ),
                    crate::erofs::reader::inode_matches(ino, img.data@, ino.offset as int, bits),
                    kind == (if crate::erofs::format::spec_inode_layout_of(
                        crate::erofs::reader::le16(img.data@, ino.offset as int),
                    ) is Extended {
                        SegmentKind::ExtendedInode
                    } else {
                        SegmentKind::CompactInode
                    }),
                    ino.total_len == (crate::erofs::reader::inode_hsize(
                        img.data@,
                        ino.offset as int,
                    ) + crate::erofs::reader::xattr_area_len(
                        crate::erofs::reader::le16(img.data@, ino.offset as int + 2),
                    ) + crate::erofs::reader::inode_inline_len(
                        img.data@,
                        ino.offset as int,
                        bits,
                    )) as u64,
                    note_v(dsegs_pre, ino.offset, ino.total_len, kind, Some(path@)) == Ok::<
                        (Seq<SegView>, bool),
                        ImageError,
                    >((dsegs1, false)),
                    scg == (if crate::erofs::reader::le16(img.data@, ino.offset as int + 2)
                        == 0 {
                        0int
                    } else {
                        img.data@[ino.offset as int + crate::erofs::reader::inode_hsize(
                            img.data@,
                            ino.offset as int,
                        ) + 4] as int
                    }),
                    shared_notes(
                        *img,
                        dsegs1,
                        path@,
                        ino.offset as int + crate::erofs::reader::inode_hsize(
                            img.data@,
                            ino.offset as int,
                        ),
                        scg,
                    ) == Ok::<Seq<SegView>, ImageError>(dsegs2),
                    is_dir,
                    is_dir == ((crate::erofs::reader::le16(img.data@, ino.offset as int + 4)
                        & S_IFMT) == S_IFDIR),
                    uu == crate::erofs::reader::le32(img.data@, ino.offset as int + 16),
                    ng == blocks@.len() as int,
                    ng == crate::erofs::reader::spec_block_count(
                        crate::erofs::reader::inode_size_of(img.data@, ino.offset as int),
                        crate::erofs::format::spec_data_layout_of(
                            crate::erofs::reader::le16(img.data@, ino.offset as int),
                        )->Ok_0,
                        bits,
                    ),
                    uu + ng <= u32::MAX + 1,
                    forall|j: int| 0 <= j < blocks@.len() ==> blocks@[j] == uu + j,
                    inline_psv == (if crate::erofs::reader::inode_inline_len(
                        img.data@,
                        ino.offset as int,
                        bits,
                    ) > 0 {
                        block_children(
                            img.data@.subrange(
                                ino.offset as int + crate::erofs::reader::inode_hsize(
                                    img.data@,
                                    ino.offset as int,
                                ) + crate::erofs::reader::xattr_area_len(
                                    crate::erofs::reader::le16(
                                        img.data@,
                                        ino.offset as int + 2,
                                    ),
                                ),
                                ino.offset as int + crate::erofs::reader::inode_hsize(
                                    img.data@,
                                    ino.offset as int,
                                ) + crate::erofs::reader::xattr_area_len(
                                    crate::erofs::reader::le16(
                                        img.data@,
                                        ino.offset as int + 2,
                                    ),
                                ) + crate::erofs::reader::inode_inline_len(
                                    img.data@,
                                    ino.offset as int,
                                    bits,
                                ),
                            ),
                            path@,
                            crate::erofs::reader::dirblock_count(
                                img.data@.subrange(
                                    ino.offset as int + crate::erofs::reader::inode_hsize(
                                        img.data@,
                                        ino.offset as int,
                                    ) + crate::erofs::reader::xattr_area_len(
                                        crate::erofs::reader::le16(
                                            img.data@,
                                            ino.offset as int + 2,
                                        ),
                                    ),
                                    ino.offset as int + crate::erofs::reader::inode_hsize(
                                        img.data@,
                                        ino.offset as int,
                                    ) + crate::erofs::reader::xattr_area_len(
                                        crate::erofs::reader::le16(
                                            img.data@,
                                            ino.offset as int + 2,
                                        ),
                                    ) + crate::erofs::reader::inode_inline_len(
                                        img.data@,
                                        ino.offset as int,
                                        bits,
                                    ),
                                ),
                            ),
                        )
                    } else {
                        Seq::empty()
                    }),
                    crate::erofs::reader::inode_inline_len(img.data@, ino.offset as int, bits)
                        > 0 ==> crate::erofs::reader::dirblock_ok(
                        img.data@.subrange(
                            ino.offset as int + crate::erofs::reader::inode_hsize(
                                img.data@,
                                ino.offset as int,
                            ) + crate::erofs::reader::xattr_area_len(
                                crate::erofs::reader::le16(img.data@, ino.offset as int + 2),
                            ),
                            ino.offset as int + crate::erofs::reader::inode_hsize(
                                img.data@,
                                ino.offset as int,
                            ) + crate::erofs::reader::xattr_area_len(
                                crate::erofs::reader::le16(img.data@, ino.offset as int + 2),
                            ) + crate::erofs::reader::inode_inline_len(
                                img.data@,
                                ino.offset as int,
                                bits,
                            ),
                        ),
                    ),
                    0 <= k <= blocks@.len(),
                    ({
                        let f = dir_block_notes(*img, dsegs2, path@, uu, k as int);
                        f is Ok && f->Ok_0.0 == segs_deep(segs@) && stack_deep(stack@) == dstack0
                            + inline_psv + f->Ok_0.1
                    }),
                decreases blocks@.len() - k,
            {
                let b = blocks[k];
                proof {
                    assert(b == uu + k);
                    assert((b as int) * (bs as int) <= 0xffff_ffff_ffff_ffff * 0x8000_0000int)
                        by (nonlinear_arith)
                        requires
                            b as int <= 0xffff_ffff_ffff_ffffint,
                            bs as int <= 0x8000_0000int,
                            b as int >= 0,
                            bs as int >= 1,
                    ;
                }
                let ghost fpre = dir_block_notes(*img, dsegs2, path@, uu, k as int);
                let db = match img.directory_block(b) {
                    Ok(db) => db,
                    Err(e) => {
                        proof {
                            assert(dir_block_notes(*img, dsegs2, path@, uu, k as int + 1)
                                == Err::<(Seq<SegView>, Seq<(u64, Seq<u8>)>), ImageError>(
                                ImageError::TruncatedImage,
                            ));
                            lemma_dir_block_notes_err(
                                *img,
                                dsegs2,
                                path@,
                                uu,
                                k as int + 1,
                                ng,
                            );
                            assert(walk_step(*img, dsegs_pre, dstack_pre) == WalkState::Fail(e));
                            assert(walk_iter(*img, kk + 1) == WalkState::Fail(e));
                        }
                        return Err(e);
                    },
                };
                let ghost st_pre = stack@;
                push_dir_entries(&mut stack, &db, path.as_slice());
                proof {
                    let bytes = img.data@.subrange(
                        (b as int) * (bs as int),
                        (b as int) * (bs as int) + bs as int,
                    );
                    assert(crate::erofs::reader::dirblock_matches(db.entries@, bytes));
                    lemma_children_bridge(db.entries@, bytes, path@, db.entries@.len() as int);
                    let q = queued_children(db.entries@, path@, db.entries@.len() as int);
                    assert forall|j: int| 0 <= j < stack@.len() implies #[trigger] stack_deep(
                        stack@,
                    )[j] == (stack_deep(st_pre) + q)[j] by {
                        if j < st_pre.len() {
                            assert(stack@[j] == st_pre[j]);
                        } else {
                            let k0 = j - st_pre.len();
                            assert(stack@[st_pre.len() + k0].0 == q[k0].0 && stack@[st_pre.len()
                                + k0].1@ == q[k0].1);
                        }
                    }
                    assert(stack_deep(stack@) =~= stack_deep(st_pre) + q);
                    assert(stack_deep(stack@) =~= dstack0 + inline_psv + (fpre->Ok_0.1 + q));
                }
                let boff128: u128 = (b as u128) * (bs as u128);
                if boff128 + bs as u128 > u64::MAX as u128 {
                    proof {
                        assert(false);
                    }
                    return Err(ImageError::TruncatedImage);
                }
                let ghost gb = segs@;
                proof {
                    assert(boff128 as int == (b as int) * (bs as int));
                    assert((boff128 as u64) as int == (b as int) * (bs as int));
                    assert(((b as int) * (bs as int)) % (bs as int) == 0) by (nonlinear_arith)
                        requires
                            bs as int >= 1,
                    ;
                    assert(seg_tuple_valid(*img, boff128 as u64, bs, SegmentKind::DirectoryBlock));
                }
                let bpcl = vstd::slice::slice_to_vec(path.as_slice());
                let ghost bpclg = bpcl;
                let noted = match note(
                    &mut segs,
                    boff128 as u64,
                    bs,
                    SegmentKind::DirectoryBlock,
                    Some(bpcl),
                ) {
                    Ok(b2) => b2,
                    Err(e) => {
                        proof {
                            lemma_seg_pos_deep(gb, (boff128 as u64) as int);
                            lemma_seg_pos(gb, (boff128 as u64) as int);
                            assert(note_v(
                                segs_deep(gb),
                                boff128 as u64,
                                bs,
                                SegmentKind::DirectoryBlock,
                                Some(path@),
                            ) == Err::<(Seq<SegView>, bool), ImageError>(
                                ImageError::SegmentMismatch,
                            ));
                            assert(dir_block_notes(*img, dsegs2, path@, uu, k as int + 1)
                                == Err::<(Seq<SegView>, Seq<(u64, Seq<u8>)>), ImageError>(e));
                            lemma_dir_block_notes_err(
                                *img,
                                dsegs2,
                                path@,
                                uu,
                                k as int + 1,
                                ng,
                            );
                            assert(walk_step(*img, dsegs_pre, dstack_pre) == WalkState::Fail(e));
                            assert(walk_iter(*img, kk + 1) == WalkState::Fail(e));
                        }
                        return Err(e);
                    },
                };
                proof {
                    lemma_seg_pos(gb, (boff128 as u64) as int);
                    let p = seg_pos(gb, (boff128 as u64) as int);
                    assert forall|j: int| 0 <= j < segs@.len() implies seg_valid(
                        *img,
                        #[trigger] segs@[j],
                    ) by {
                        if noted {
                            if j != p - 1 {
                                assert(segs@[j] == gb[j]);
                            }
                        } else {
                            if j < p {
                                assert(segs@[j] == gb[j]);
                            } else if j > p {
                                assert(segs@[j] == gb[j - 1]);
                            }
                        }
                    }
                    lemma_note_bridge(
                        gb,
                        segs@,
                        boff128 as u64,
                        bs,
                        SegmentKind::DirectoryBlock,
                        Some(bpclg),
                        noted,
                    );
                    assert(({
                        let f = dir_block_notes(*img, dsegs2, path@, uu, k as int + 1);
                        f is Ok && f->Ok_0.0 == segs_deep(segs@) && stack_deep(stack@) == dstack0
                            + inline_psv + f->Ok_0.1
                    }));
                }
                k = k + 1;
            }
            proof {
                assert(walk_step(*img, dsegs_pre, dstack_pre) == WalkState::Running(
                    segs_deep(segs@),
                    stack_deep(stack@),
                ));
                kk = kk + 1;
                assert(walk_iter(*img, kk) == WalkState::Running(
                    segs_deep(segs@),
                    stack_deep(stack@),
                ));
                lemma_segs_len_bound(segs@, len);
            }
        } else {
            let mut k: usize = 0;
            while k < blocks.len()
                invariant
                    img.wf(),
                    segs_sorted(segs@),
                    segs_within(segs@, len),
                    segs@.len() >= seg_floor,
                    seg_has_empty(segs@, 0, SegmentKind::Header, 32),
                    seg_has_empty(segs@, 1024, SegmentKind::Superblock, 128),
                    forall|j: int|
                        0 <= j < segs@.len() ==> seg_valid(*img, #[trigger] segs@[j]),
                    len == img.data@.len(),
                    len <= usize::MAX,
                    bits == img.blkszbits,
                    bs == 1u64 << bits,
                    bs >= 1,
                    bs <= 0x8000_0000u64,
                    walk_iter(*img, kk) == WalkState::Running(dsegs_pre, dstack_pre),
                    dstack_pre.len() > 0,
                    dstack_pre.last() == (nid, path@),
                    dstack0 == dstack_pre.drop_last(),
                    stack_deep(stack@) == dstack0,
                    crate::erofs::reader::inode_fits(img.data@, img.sb.meta_blkaddr, bits, nid),
                    ino.offset as int == crate::erofs::reader::inode_base(
                        img.sb.meta_blkaddr,
                        bits,
                        nid,
                    ),
                    crate::erofs::reader::inode_matches(ino, img.data@, ino.offset as int, bits),
                    kind == (if crate::erofs::format::spec_inode_layout_of(
                        crate::erofs::reader::le16(img.data@, ino.offset as int),
                    ) is Extended {
                        SegmentKind::ExtendedInode
                    } else {
                        SegmentKind::CompactInode
                    }),
                    ino.total_len == (crate::erofs::reader::inode_hsize(
                        img.data@,
                        ino.offset as int,
                    ) + crate::erofs::reader::xattr_area_len(
                        crate::erofs::reader::le16(img.data@, ino.offset as int + 2),
                    ) + crate::erofs::reader::inode_inline_len(
                        img.data@,
                        ino.offset as int,
                        bits,
                    )) as u64,
                    note_v(dsegs_pre, ino.offset, ino.total_len, kind, Some(path@)) == Ok::<
                        (Seq<SegView>, bool),
                        ImageError,
                    >((dsegs1, false)),
                    scg == (if crate::erofs::reader::le16(img.data@, ino.offset as int + 2)
                        == 0 {
                        0int
                    } else {
                        img.data@[ino.offset as int + crate::erofs::reader::inode_hsize(
                            img.data@,
                            ino.offset as int,
                        ) + 4] as int
                    }),
                    shared_notes(
                        *img,
                        dsegs1,
                        path@,
                        ino.offset as int + crate::erofs::reader::inode_hsize(
                            img.data@,
                            ino.offset as int,
                        ),
                        scg,
                    ) == Ok::<Seq<SegView>, ImageError>(dsegs2),
                    !is_dir,
                    is_dir == ((crate::erofs::reader::le16(img.data@, ino.offset as int + 4)
                        & S_IFMT) == S_IFDIR),
                    uu == crate::erofs::reader::le32(img.data@, ino.offset as int + 16),
                    ng == blocks@.len() as int,
                    ng == crate::erofs::reader::spec_block_count(
                        crate::erofs::reader::inode_size_of(img.data@, ino.offset as int),
                        crate::erofs::format::spec_data_layout_of(
                            crate::erofs::reader::le16(img.data@, ino.offset as int),
                        )->Ok_0,
                        bits,
                    ),
                    uu + ng <= u32::MAX + 1,
                    forall|j: int| 0 <= j < blocks@.len() ==> blocks@[j] == uu + j,
                    0 <= k <= blocks@.len(),
                    data_block_notes(*img, dsegs2, path@, uu, k as int) == Ok::<
                        Seq<SegView>,
                        ImageError,
                    >(segs_deep(segs@)),
                decreases blocks@.len() - k,
            {
                let b = blocks[k];
                proof {
                    assert(b == uu + k);
                    assert((b as int) * (bs as int) <= 0xffff_ffff_ffff_ffff * 0x8000_0000int)
                        by (nonlinear_arith)
                        requires
                            b as int <= 0xffff_ffff_ffff_ffffint,
                            bs as int <= 0x8000_0000int,
                            b as int >= 0,
                            bs as int >= 1,
                    ;
                }
                match img.data_block(b) {
                    Ok(_) => {},
                    Err(e) => {
                        proof {
                            assert(data_block_notes(*img, dsegs2, path@, uu, k as int + 1)
                                == Err::<Seq<SegView>, ImageError>(ImageError::TruncatedImage));
                            lemma_data_block_notes_err(
                                *img,
                                dsegs2,
                                path@,
                                uu,
                                k as int + 1,
                                ng,
                            );
                            assert(walk_step(*img, dsegs_pre, dstack_pre) == WalkState::Fail(e));
                            assert(walk_iter(*img, kk + 1) == WalkState::Fail(e));
                        }
                        return Err(e);
                    },
                }
                let boff128: u128 = (b as u128) * (bs as u128);
                if boff128 + bs as u128 > u64::MAX as u128 {
                    proof {
                        assert(false);
                    }
                    return Err(ImageError::TruncatedImage);
                }
                let ghost gb = segs@;
                proof {
                    assert(boff128 as int == (b as int) * (bs as int));
                    assert((boff128 as u64) as int == (b as int) * (bs as int));
                    assert(((b as int) * (bs as int)) % (bs as int) == 0) by (nonlinear_arith)
                        requires
                            bs as int >= 1,
                    ;
                    assert(seg_tuple_valid(*img, boff128 as u64, bs, SegmentKind::DataBlock));
                }
                let bpcl = vstd::slice::slice_to_vec(path.as_slice());
                let ghost bpclg = bpcl;
                let noted = match note(
                    &mut segs,
                    boff128 as u64,
                    bs,
                    SegmentKind::DataBlock,
                    Some(bpcl),
                ) {
                    Ok(b2) => b2,
                    Err(e) => {
                        proof {
                            lemma_seg_pos_deep(gb, (boff128 as u64) as int);
                            lemma_seg_pos(gb, (boff128 as u64) as int);
                            assert(note_v(
                                segs_deep(gb),
                                boff128 as u64,
                                bs,
                                SegmentKind::DataBlock,
                                Some(path@),
                            ) == Err::<(Seq<SegView>, bool), ImageError>(
                                ImageError::SegmentMismatch,
                            ));
                            assert(data_block_notes(*img, dsegs2, path@, uu, k as int + 1)
                                == Err::<Seq<SegView>, ImageError>(e));
                            lemma_data_block_notes_err(
                                *img,
                                dsegs2,
                                path@,
                                uu,
                                k as int + 1,
                                ng,
                            );
                            assert(walk_step(*img, dsegs_pre, dstack_pre) == WalkState::Fail(e));
                            assert(walk_iter(*img, kk + 1) == WalkState::Fail(e));
                        }
                        return Err(e);
                    },
                };
                proof {
                    lemma_seg_pos(gb, (boff128 as u64) as int);
                    let p = seg_pos(gb, (boff128 as u64) as int);
                    assert forall|j: int| 0 <= j < segs@.len() implies seg_valid(
                        *img,
                        #[trigger] segs@[j],
                    ) by {
                        if noted {
                            if j != p - 1 {
                                assert(segs@[j] == gb[j]);
                            }
                        } else {
                            if j < p {
                                assert(segs@[j] == gb[j]);
                            } else if j > p {
                                assert(segs@[j] == gb[j - 1]);
                            }
                        }
                    }
                    lemma_note_bridge(
                        gb,
                        segs@,
                        boff128 as u64,
                        bs,
                        SegmentKind::DataBlock,
                        Some(bpclg),
                        noted,
                    );
                    assert(data_block_notes(*img, dsegs2, path@, uu, k as int + 1) == Ok::<
                        Seq<SegView>,
                        ImageError,
                    >(segs_deep(segs@)));
                }
                k = k + 1;
            }
            proof {
                assert(walk_step(*img, dsegs_pre, dstack_pre) == WalkState::Running(
                    segs_deep(segs@),
                    stack_deep(stack@),
                ));
                kk = kk + 1;
                assert(walk_iter(*img, kk) == WalkState::Running(
                    segs_deep(segs@),
                    stack_deep(stack@),
                ));
                lemma_segs_len_bound(segs@, len);
            }
        }
    }
    proof {
        assert(stack_deep(stack@) =~= Seq::<(u64, Seq<u8>)>::empty());
        assert(walk_step(*img, segs_deep(segs@), stack_deep(stack@)) == WalkState::Done(
            segs_deep(segs@),
        ));
        assert(walk_iter(*img, kk + 1) == WalkState::Done(segs_deep(segs@)));
    }
    Ok(segs)
}

/// A directory entry that the walk descends into: any name but `.` and
/// `..`.
pub open spec fn non_dot(name: Seq<u8>) -> bool {
    name != seq![46u8] && name != seq![46u8, 46u8]
}

/// The work items the first `i` entries of a block contribute: the inode
/// and joined path of each non-dot entry, in entry order.
pub open spec fn queued_children(
    s: Seq<crate::erofs::reader::DirectoryEntry>,
    base: Seq<u8>,
    i: int,
) -> Seq<(u64, Seq<u8>)>
    decreases i,
{
    if i <= 0 {
        Seq::empty()
    } else {
        queued_children(s, base, i - 1) + (if non_dot(s[i - 1].name@) {
            seq![(s[i - 1].inode, crate::image::path_join(base, s[i - 1].name@))]
        } else {
            Seq::empty()
        })
    }
}

/// Queue the children of a directory block for the walk: exactly the
/// entries not named `.` or `..`, in order, each under its name joined to
/// the block's path.
fn push_dir_entries(stack: &mut Vec<(u64, Vec<u8>)>, db: &DirectoryBlock, path: &[u8])
    ensures
        ({
            let q = queued_children(db.entries@, path@, db.entries@.len() as int);
            &&& final(stack)@.len() == old(stack)@.len() + q.len()
            &&& (forall|j: int| 0 <= j < old(stack)@.len() ==> final(stack)@[j] == old(stack)@[j])
            &&& (forall|k: int|
                0 <= k < q.len() ==> (#[trigger] final(stack)@[old(stack)@.len() + k]).0 == q[k].0
                    && final(stack)@[old(stack)@.len() + k].1@ == q[k].1)
        }),
{
    let ghost st0 = stack@;
    let mut k: usize = 0;
    while k < db.entries.len()
        invariant
            0 <= k <= db.entries@.len(),
            st0 == old(stack)@,
            ({
                let q = queued_children(db.entries@, path@, k as int);
                &&& stack@.len() == st0.len() + q.len()
                &&& (forall|j: int| 0 <= j < st0.len() ==> stack@[j] == st0[j])
                &&& (forall|kk: int|
                    0 <= kk < q.len() ==> (#[trigger] stack@[st0.len() + kk]).0 == q[kk].0
                        && stack@[st0.len() + kk].1@ == q[kk].1)
            }),
        decreases db.entries@.len() - k,
    {
        let ghost qpre = queued_children(db.entries@, path@, k as int);
        let name = &db.entries[k].name;
        let dot = name.len() == 1 && name[0] == 46;
        let dotdot = name.len() == 2 && name[0] == 46 && name[1] == 46;
        proof {
            if dot {
                assert(name@ =~= seq![46u8]);
            }
            if dotdot {
                assert(name@ =~= seq![46u8, 46u8]);
            }
            assert((!dot && !dotdot) == non_dot(name@));
        }
        if !dot && !dotdot {
            let child = path_join_exec(path, name.as_slice());
            stack.push((db.entries[k].inode, child));
            proof {
                assert(queued_children(db.entries@, path@, k as int + 1) =~= qpre + seq![
                    (db.entries@[k as int].inode, crate::image::path_join(
                        path@,
                        db.entries@[k as int].name@,
                    )),
                ]);
            }
        } else {
            proof {
                assert(queued_children(db.entries@, path@, k as int + 1) =~= qpre);
            }
        }
        k = k + 1;
    }
}


/// The decimal digits of a non-negative number.
pub open spec fn dec(x: int) -> Seq<u8>
    decreases x,
{
    if x < 10 {
        seq![(48 + x) as u8]
    } else {
        dec(x / 10) + seq![(48 + x % 10) as u8]
    }
}

/// One lowercase hex digit.
pub open spec fn hexdig(x: int) -> u8 {
    if x < 10 {
        (48 + x) as u8
    } else {
        (87 + x) as u8
    }
}

/// Two lowercase hex digits.
pub open spec fn hex2(x: int) -> Seq<u8> {
    seq![hexdig(x / 16), hexdig(x % 16)]
}

/// Four lowercase hex digits.
pub open spec fn hex4(x: int) -> Seq<u8> {
    hex2(x / 256) + hex2(x % 256)
}

/// Eight lowercase hex digits.
pub open spec fn hex8(x: int) -> Seq<u8> {
    hex4(x / 65536) + hex4(x % 65536)
}

/// Append the decimal digits of `x`.
pub fn push_dec(out: &mut Vec<u8>, x: u64)
    ensures
        final(out)@ == old(out)@ + dec(x as int),
    decreases x,
{
    if x < 10 {
        out.push(48 + x as u8);
        proof {
            assert(final(out)@ =~= old(out)@ + dec(x as int));
        }
    } else {
        push_dec(out, x / 10);
        out.push(48 + (x % 10) as u8);
        proof {
            assert(final(out)@ =~= old(out)@ + dec(x as int));
        }
    }
}

/// Append two lowercase hex digits.
pub fn push_hex2(out: &mut Vec<u8>, x: u8)
    ensures
        final(out)@ == old(out)@ + hex2(x as int),
{
    let hi = x / 16;
    let lo = x % 16;
    out.push(if hi < 10 {
        48 + hi
    } else {
        87 + hi
    });
    out.push(if lo < 10 {
        48 + lo
    } else {
        87 + lo
    });
    proof {
        assert(final(out)@ =~= old(out)@ + hex2(x as int));
    }
}

/// Append four lowercase hex digits.
pub fn push_hex4(out: &mut Vec<u8>, x: u16)
    ensures
        final(out)@ == old(out)@ + hex4(x as int),
{
    push_hex2(out, (x / 256) as u8);
    push_hex2(out, (x % 256) as u8);
    proof {
        assert(final(out)@ =~= old(out)@ + hex4(x as int));
    }
}

/// Append eight lowercase hex digits.
pub fn push_hex8(out: &mut Vec<u8>, x: u32)
    ensures
        final(out)@ == old(out)@ + hex8(x as int),
{
    push_hex4(out, (x / 65536) as u16);
    push_hex4(out, (x % 65536) as u16);
    proof {
        assert(final(out)@ =~= old(out)@ + hex8(x as int));
    }
}

/// The lowercase hex expansion of the first `i` bytes, two digits each.
pub open spec fn hex_bytes_upto(b: Seq<u8>, i: int) -> Seq<u8>
    decreases i,
{
    if i <= 0 {
        Seq::empty()
    } else {
        hex_bytes_upto(b, i - 1) + hex2(b[i - 1] as int)
    }
}

/// The lowercase hex expansion of a byte string, two digits per byte.
pub open spec fn hex_bytes(b: Seq<u8>) -> Seq<u8> {
    hex_bytes_upto(b, b.len() as int)
}

/// Relies on hex::encode: lowercase, exactly two hex digits per input
/// byte, in order.
#[verifier::external_body]
fn hex_encode_bytes(data: &[u8]) -> (r: Vec<u8>)
    ensures
        r@ == hex_bytes(data@),
{
    hex::encode(data).into_bytes()
}

/// Relies on std::str::from_utf8: it accepts exactly the byte strings that
/// are valid UTF-8, as vstd's model of UTF-8 states it.
#[verifier::external_body]
fn utf8_check(data: &[u8]) -> (r: bool)
    ensures
        r == vstd::utf8::valid_utf8(data@),
{
    core::str::from_utf8(data).is_ok()
}

/// A byte string in display form: quoted as it stands if it is valid
/// UTF-8, else its lowercase hex expansion.
pub open spec fn utf8_or_hex_spec(b: Seq<u8>) -> Seq<u8> {
    if vstd::utf8::valid_utf8(b) {
        seq![34u8] + b + seq![34u8]
    } else {
        hex_bytes(b)
    }
}

/// Append a byte string in display form: quoted if valid UTF-8, else hex.
pub fn utf8_or_hex(out: &mut Vec<u8>, data: &[u8])
    ensures
        final(out)@ == old(out)@ + utf8_or_hex_spec(data@),
{
    if utf8_check(data) {
        crate::image::push_quoted(out, data);
    } else {
        let h = hex_encode_bytes(data);
        crate::image::push_bytes(out, h.as_slice());
    }
}


/// The bytes of a list in its debug form, elements in decimal separated by
/// a comma and a space, without the brackets.
pub open spec fn debug_items_upto(b: Seq<u8>, i: int) -> Seq<u8>
    decreases i,
{
    if i <= 0 {
        Seq::empty()
    } else if i == 1 {
        dec(b[0] as int)
    } else {
        debug_items_upto(b, i - 1) + seq![44u8, 32u8] + dec(b[i - 1] as int)
    }
}

/// A byte list in its debug form: decimal elements between brackets.
pub open spec fn debug_bytes(b: Seq<u8>) -> Seq<u8> {
    seq![91u8] + debug_items_upto(b, b.len() as int) + seq![93u8]
}

/// Append a byte list in its debug form.
pub fn push_debug_bytes(out: &mut Vec<u8>, b: &[u8])
    ensures
        final(out)@ == old(out)@ + debug_bytes(b@),
{
    let _n: usize = b.len();
    crate::image::push_bytes(out, &[91]);
    let mut i: usize = 0;
    while i < b.len()
        invariant
            0 <= i <= b@.len(),
            out@ == old(out)@ + seq![91u8] + debug_items_upto(b@, i as int),
        decreases b@.len() - i,
    {
        if i > 0 {
            crate::image::push_bytes(out, &[44, 32]);
        }
        push_dec(out, b[i] as u64);
        proof {
            assert(out@ =~= old(out)@ + seq![91u8] + debug_items_upto(b@, i as int + 1));
        }
        i = i + 1;
    }
    crate::image::push_bytes(out, &[93]);
    proof {
        assert(final(out)@ =~= old(out)@ + debug_bytes(b@));
    }
}

/// The fixed xattr name prefix selected by a name index; indices outside
/// the table give the empty prefix.
pub open spec fn xattr_prefix(idx: int) -> Seq<u8> {
    if idx == 1 {
        seq![117u8, 115u8, 101u8, 114u8, 46u8]
    } else if idx == 2 {
        seq![115u8, 121u8, 115u8, 116u8, 101u8, 109u8, 46u8, 112u8, 111u8, 115u8, 105u8, 120u8, 95u8, 97u8, 99u8, 108u8, 95u8, 97u8, 99u8, 99u8, 101u8, 115u8, 115u8]
    } else if idx == 3 {
        seq![115u8, 121u8, 115u8, 116u8, 101u8, 109u8, 46u8, 112u8, 111u8, 115u8, 105u8, 120u8, 95u8, 97u8, 99u8, 108u8, 95u8, 100u8, 101u8, 102u8, 97u8, 117u8, 108u8, 116u8]
    } else if idx == 4 {
        seq![116u8, 114u8, 117u8, 115u8, 116u8, 101u8, 100u8, 46u8]
    } else if idx == 5 {
        seq![108u8, 117u8, 115u8, 116u8, 114u8, 101u8, 46u8]
    } else if idx == 6 {
        seq![115u8, 101u8, 99u8, 117u8, 114u8, 105u8, 116u8, 121u8, 46u8]
    } else {
        Seq::empty()
    }
}

/// Append the fixed xattr name prefix selected by `idx`.
pub fn push_xattr_prefix(out: &mut Vec<u8>, idx: u8)
    ensures
        final(out)@ == old(out)@ + xattr_prefix(idx as int),
{
    if idx == 1 {
        crate::image::push_bytes(out, &[117, 115, 101, 114, 46]);
    } else if idx == 2 {
        crate::image::push_bytes(out, &[115, 121, 115, 116, 101, 109, 46, 112, 111, 115, 105, 120, 95, 97, 99, 108, 95, 97, 99, 99, 101, 115, 115]);
    } else if idx == 3 {
        crate::image::push_bytes(out, &[115, 121, 115, 116, 101, 109, 46, 112, 111, 115, 105, 120, 95, 97, 99, 108, 95, 100, 101, 102, 97, 117, 108, 116]);
    } else if idx == 4 {
        crate::image::push_bytes(out, &[116, 114, 117, 115, 116, 101, 100, 46]);
    } else if idx == 5 {
        crate::image::push_bytes(out, &[108, 117, 115, 116, 114, 101, 46]);
    } else if idx == 6 {
        crate::image::push_bytes(out, &[115, 101, 99, 117, 114, 105, 116, 121, 46]);
    }
    proof {
        assert(final(out)@ =~= old(out)@ + xattr_prefix(idx as int));
    }
}

/// The display form of one xattr: its header triple, the prefixed name,
/// the value, and any non-zero padding bytes.
pub open spec fn render_xattr_spec(
    ni: u8,
    nl: u8,
    vs: u16,
    suffix: Seq<u8>,
    value: Seq<u8>,
    padding: Seq<u8>,
) -> Seq<u8> {
    seq![40u8] + dec(ni as int) + seq![32u8] + dec(nl as int) + seq![32u8] + dec(vs as int)
        + seq![41u8, 32u8] + xattr_prefix(ni as int) + utf8_or_hex_spec(suffix) + seq![32u8, 61u8, 32u8]
        + utf8_or_hex_spec(value) + (if (exists|i: int| 0 <= i < padding.len() && padding[i] != 0) {
        seq![32u8] + debug_bytes(padding)
    } else {
        Seq::empty()
    })
}

/// Append the display form of one xattr.
pub fn render_xattr(out: &mut Vec<u8>, x: &XAttr)
    ensures
        final(out)@ == old(out)@ + render_xattr_spec(
            x.header.name_index,
            x.header.name_len,
            x.header.value_size,
            x.suffix@,
            x.value@,
            x.padding@,
        ),
{
    crate::image::push_bytes(out, &[40]);
    push_dec(out, x.header.name_index as u64);
    crate::image::push_bytes(out, &[32]);
    push_dec(out, x.header.name_len as u64);
    crate::image::push_bytes(out, &[32]);
    push_dec(out, x.header.value_size as u64);
    crate::image::push_bytes(out, &[41, 32]);
    push_xattr_prefix(out, x.header.name_index);
    utf8_or_hex(out, x.suffix.as_slice());
    crate::image::push_bytes(out, &[32, 61, 32]);
    utf8_or_hex(out, x.value.as_slice());
    let mut any: bool = false;
    let mut i: usize = 0;
    while i < x.padding.len()
        invariant
            0 <= i <= x.padding@.len(),
            any == (exists|j: int| 0 <= j < i && x.padding@[j] != 0),
        decreases x.padding@.len() - i,
    {
        if x.padding[i] != 0 {
            any = true;
        }
        i = i + 1;
    }
    if any {
        crate::image::push_bytes(out, &[32]);
        push_debug_bytes(out, x.padding.as_slice());
    }
    proof {
        assert(final(out)@ =~= old(out)@ + render_xattr_spec(
            x.header.name_index,
            x.header.name_len,
            x.header.value_size,
            x.suffix@,
            x.value@,
            x.padding@,
        ));
    }
}

/// One `links` list line.
pub open spec fn render_paths_item(paths: Seq<Vec<u8>>, i: int) -> Seq<u8> {
    seq![32u8, 32u8, 32u8, 32u8, 32u8, 32u8, 32u8, 32u8, 32u8, 32u8, 32u8, 32u8, 32u8, 32u8, 32u8, 45u8, 32u8] + utf8_or_hex_spec(paths[i]@) + seq![10u8]
}

/// The `links` list lines for the first `i` paths.
pub open spec fn render_paths_upto(paths: Seq<Vec<u8>>, i: int) -> Seq<u8>
    decreases i,
{
    if i <= 0 {
        Seq::empty()
    } else {
        render_paths_upto(paths, i - 1) + render_paths_item(paths, i - 1)
    }
}

/// The display form of a segment's paths: nothing for none, a `filename`
/// line for one, a `links` list for several.
pub open spec fn render_paths_spec(paths: Seq<Vec<u8>>) -> Seq<u8> {
    if paths.len() == 0 {
        Seq::empty()
    } else if paths.len() == 1 {
        seq![32u8, 32u8, 32u8, 32u8, 32u8, 32u8, 32u8, 32u8, 32u8, 32u8, 32u8, 32u8, 102u8, 105u8, 108u8, 101u8, 110u8, 97u8, 109u8, 101u8, 58u8, 32u8] + utf8_or_hex_spec(paths[0]@) + seq![10u8]
    } else {
        seq![32u8, 32u8, 32u8, 32u8, 32u8, 32u8, 32u8, 32u8, 32u8, 32u8, 32u8, 32u8, 108u8, 105u8, 110u8, 107u8, 115u8, 58u8, 10u8] + render_paths_upto(paths, paths.len() as int)
    }
}

/// Append the display form of a segment's paths.
pub fn print_paths(out: &mut Vec<u8>, paths: &Vec<Vec<u8>>)
    ensures
        final(out)@ == old(out)@ + render_paths_spec(paths@),
{
    if paths.len() == 0 {
    } else if paths.len() == 1 {
        crate::image::push_bytes(out, &[32, 32, 32, 32, 32, 32, 32, 32, 32, 32, 32, 32, 102, 105, 108, 101, 110, 97, 109, 101, 58, 32]);
        utf8_or_hex(out, paths[0].as_slice());
        crate::image::push_bytes(out, &[10]);
        proof {
            assert(final(out)@ =~= old(out)@ + render_paths_spec(paths@));
        }
    } else {
        crate::image::push_bytes(out, &[32, 32, 32, 32, 32, 32, 32, 32, 32, 32, 32, 32, 108, 105, 110, 107, 115, 58, 10]);
        let mut i: usize = 0;
        while i < paths.len()
            invariant
                0 <= i <= paths@.len(),
                out@ == old(out)@ + seq![32u8, 32u8, 32u8, 32u8, 32u8, 32u8, 32u8, 32u8, 32u8, 32u8, 32u8, 32u8, 108u8, 105u8, 110u8, 107u8, 115u8, 58u8, 10u8] + render_paths_upto(paths@, i as int),
            decreases paths@.len() - i,
        {
            crate::image::push_bytes(out, &[32, 32, 32, 32, 32, 32, 32, 32, 32, 32, 32, 32, 32, 32, 32, 45, 32]);
            utf8_or_hex(out, paths[i].as_slice());
            crate::image::push_bytes(out, &[10]);
            proof {
                assert(out@ =~= old(out)@ + seq![32u8, 32u8, 32u8, 32u8, 32u8, 32u8, 32u8, 32u8, 32u8, 32u8, 32u8, 32u8, 108u8, 105u8, 110u8, 107u8, 115u8, 58u8, 10u8] + render_paths_upto(paths@, i as int + 1));
            }
            i = i + 1;
        }
        proof {
            assert(final(out)@ =~= old(out)@ + render_paths_spec(paths@));
        }
    }
}


/// One hex cell of a dump row: two digits and a space within the data,
/// three spaces past its end.
pub open spec fn dump_cell(b: Seq<u8>, idx: int) -> Seq<u8> {
    if idx < b.len() {
        hex2(b[idx] as int) + seq![32u8]
    } else {
        seq![32u8, 32u8, 32u8]
    }
}

/// The first `j` hex cells of row `row`, with the extra space after every
/// eighth column.
pub open spec fn dump_cells_upto(b: Seq<u8>, row: int, j: int) -> Seq<u8>
    decreases j,
{
    if j <= 0 {
        Seq::empty()
    } else {
        dump_cells_upto(b, row, j - 1) + dump_cell(b, row * 16 + (j - 1)) + (if (j - 1) % 8 == 7 {
            seq![32u8]
        } else {
            Seq::empty()
        })
    }
}

/// One gutter cell: the byte itself if printable ASCII, a dot if not, a
/// space past the end of the data.
pub open spec fn gutter_cell(b: Seq<u8>, idx: int) -> Seq<u8> {
    if idx < b.len() {
        if b[idx] < 128 && b[idx] >= 32 && b[idx] != 127 {
            seq![b[idx]]
        } else {
            seq![46u8]
        }
    } else {
        seq![32u8]
    }
}

/// The first `j` gutter cells of row `row`.
pub open spec fn gutter_upto(b: Seq<u8>, row: int, j: int) -> Seq<u8>
    decreases j,
{
    if j <= 0 {
        Seq::empty()
    } else {
        gutter_upto(b, row, j - 1) + gutter_cell(b, row * 16 + (j - 1))
    }
}

/// One full dump row: the offset, sixteen hex cells, and the ASCII gutter.
pub open spec fn dump_row(b: Seq<u8>, row: int) -> Seq<u8> {
    seq![32u8, 32u8, 32u8, 43u8] + hex4(row * 16) + seq![32u8, 32u8] + dump_cells_upto(b, row, 16) + seq![124u8] + gutter_upto(b, row, 16)
        + seq![124u8, 10u8]
}

/// The first `r` dump rows.
pub open spec fn hexdump_upto(b: Seq<u8>, r: int) -> Seq<u8>
    decreases r,
{
    if r <= 0 {
        Seq::empty()
    } else {
        hexdump_upto(b, r - 1) + dump_row(b, r - 1)
    }
}

/// The whole dump: sixteen bytes per row, offsets in front, ASCII gutter
/// behind.
pub open spec fn hexdump_spec(b: Seq<u8>) -> Seq<u8> {
    hexdump_upto(b, (b.len() + 15) as int / 16)
}

/// Append the hex dump of `block`. The row format carries four-digit
/// offsets, so a block must fit in them; composefs images use 4096-byte
/// blocks and sub-block inline payloads, well within the bound.
pub fn hexdump(out: &mut Vec<u8>, block: &[u8])
    requires
        block@.len() <= 65520,
    ensures
        final(out)@ == old(out)@ + hexdump_spec(block@),
{
    let blen: usize = block.len();
    let nrows: usize = (blen + 15) / 16;
    let mut row: usize = 0;
    while row < nrows
        invariant
            0 <= row <= nrows,
            blen == block@.len(),
            blen <= 65520,
            nrows == (blen + 15) / 16,
            out@ == old(out)@ + hexdump_upto(block@, row as int),
        decreases nrows - row,
    {
        let ghost row0 = out@;
        crate::image::push_bytes(out, &[32, 32, 32, 43]);
        push_hex4(out, (row * 16) as u16);
        crate::image::push_bytes(out, &[32, 32]);
        let ghost cells0 = out@;
        let mut j: usize = 0;
        while j < 16
            invariant
                0 <= j <= 16,
                row < nrows,
                nrows == (blen + 15) / 16,
                blen <= 65520,
                blen == block@.len(),
                out@ == cells0 + dump_cells_upto(block@, row as int, j as int),
            decreases 16 - j,
        {
            let idx: usize = row * 16 + j;
            if idx < blen {
                push_hex2(out, block[idx]);
                crate::image::push_bytes(out, &[32]);
            } else {
                crate::image::push_bytes(out, &[32, 32, 32]);
            }
            if j % 8 == 7 {
                crate::image::push_bytes(out, &[32]);
            }
            proof {
                assert(out@ =~= cells0 + dump_cells_upto(block@, row as int, j as int + 1));
            }
            j = j + 1;
        }
        crate::image::push_bytes(out, &[124]);
        let ghost gut0 = out@;
        let mut g: usize = 0;
        while g < 16
            invariant
                0 <= g <= 16,
                row < nrows,
                nrows == (blen + 15) / 16,
                blen <= 65520,
                blen == block@.len(),
                out@ == gut0 + gutter_upto(block@, row as int, g as int),
            decreases 16 - g,
        {
            let idx: usize = row * 16 + g;
            if idx < blen {
                let c = block[idx];
                if c < 128 && c >= 32 && c != 127 {
                    out.push(c);
                } else {
                    out.push(46);
                }
            } else {
                crate::image::push_bytes(out, &[32]);
            }
            proof {
                assert(out@ =~= gut0 + gutter_upto(block@, row as int, g as int + 1));
            }
            g = g + 1;
        }
        crate::image::push_bytes(out, &[124, 10]);
        proof {
            assert(out@ =~= old(out)@ + hexdump_upto(block@, row as int + 1));
        }
        row = row + 1;
    }
}

/// One shared xattr id of the `Shared xattrs` line.
pub open spec fn shared_ids_upto(ids: Seq<u32>, i: int) -> Seq<u8>
    decreases i,
{
    if i <= 0 {
        Seq::empty()
    } else {
        shared_ids_upto(ids, i - 1) + seq![32u8] + dec(ids[i - 1] as int)
    }
}

/// One `Local xattrs` list line.
pub open spec fn local_xattrs_upto(local: Seq<XAttr>, i: int) -> Seq<u8>
    decreases i,
{
    if i <= 0 {
        Seq::empty()
    } else {
        local_xattrs_upto(local, i - 1) + seq![32u8, 32u8, 32u8, 32u8, 32u8, 32u8, 32u8, 32u8, 32u8, 32u8, 45u8, 32u8] + render_xattr_spec(
            local[i - 1].header.name_index,
            local[i - 1].header.name_len,
            local[i - 1].header.value_size,
            local[i - 1].suffix@,
            local[i - 1].value@,
            local[i - 1].padding@,
        ) + seq![10u8]
    }
}

/// The display form of an inode's xattr area: the shared id line when any
/// ids are referenced, then the local records.
pub open spec fn render_inode_xattrs_spec(x: InodeXAttrs) -> Seq<u8> {
    (if x.shared@.len() > 0 {
        seq![32u8, 32u8, 32u8, 32u8, 32u8, 32u8, 32u8, 32u8, 32u8, 83u8, 104u8, 97u8, 114u8, 101u8, 100u8, 32u8, 120u8, 97u8, 116u8, 116u8, 114u8, 115u8, 58u8] + shared_ids_upto(x.shared@, x.shared@.len() as int) + seq![10u8]
    } else {
        Seq::empty()
    }) + seq![32u8, 32u8, 32u8, 32u8, 32u8, 32u8, 32u8, 32u8, 32u8, 76u8, 111u8, 99u8, 97u8, 108u8, 32u8, 120u8, 97u8, 116u8, 116u8, 114u8, 115u8, 58u8, 10u8] + local_xattrs_upto(x.local@, x.local@.len() as int)
}

/// The display form of an optional xattr area.
pub open spec fn render_opt_xattrs_spec(x: Option<InodeXAttrs>) -> Seq<u8> {
    match x {
        Some(xs) => render_inode_xattrs_spec(xs),
        None => Seq::empty(),
    }
}

/// Append the display form of an inode's xattr area.
pub fn print_xattrs(out: &mut Vec<u8>, xattrs: &Option<InodeXAttrs>)
    ensures
        final(out)@ == old(out)@ + render_opt_xattrs_spec(*xattrs),
{
    let x = match xattrs {
        Some(x) => x,
        None => {
            return ;
        },
    };
    if x.shared.len() > 0 {
        crate::image::push_bytes(out, &[32, 32, 32, 32, 32, 32, 32, 32, 32, 83, 104, 97, 114, 101, 100, 32, 120, 97, 116, 116, 114, 115, 58]);
        let mut i: usize = 0;
        while i < x.shared.len()
            invariant
                0 <= i <= x.shared@.len(),
                out@ == old(out)@ + seq![32u8, 32u8, 32u8, 32u8, 32u8, 32u8, 32u8, 32u8, 32u8, 83u8, 104u8, 97u8, 114u8, 101u8, 100u8, 32u8, 120u8, 97u8, 116u8, 116u8, 114u8, 115u8, 58u8] + shared_ids_upto(x.shared@, i as int),
            decreases x.shared@.len() - i,
        {
            crate::image::push_bytes(out, &[32]);
            push_dec(out, x.shared[i] as u64);
            proof {
                assert(out@ =~= old(out)@ + seq![32u8, 32u8, 32u8, 32u8, 32u8, 32u8, 32u8, 32u8, 32u8, 83u8, 104u8, 97u8, 114u8, 101u8, 100u8, 32u8, 120u8, 97u8, 116u8, 116u8, 114u8, 115u8, 58u8] + shared_ids_upto(x.shared@, i as int + 1));
            }
            i = i + 1;
        }
        crate::image::push_bytes(out, &[10]);
    }
    let ghost loc0 = out@;
    crate::image::push_bytes(out, &[32, 32, 32, 32, 32, 32, 32, 32, 32, 76, 111, 99, 97, 108, 32, 120, 97, 116, 116, 114, 115, 58, 10]);
    let mut i: usize = 0;
    while i < x.local.len()
        invariant
            0 <= i <= x.local@.len(),
            out@ == loc0 + seq![32u8, 32u8, 32u8, 32u8, 32u8, 32u8, 32u8, 32u8, 32u8, 76u8, 111u8, 99u8, 97u8, 108u8, 32u8, 120u8, 97u8, 116u8, 116u8, 114u8, 115u8, 58u8, 10u8] + local_xattrs_upto(x.local@, i as int),
        decreases x.local@.len() - i,
    {
        crate::image::push_bytes(out, &[32, 32, 32, 32, 32, 32, 32, 32, 32, 32, 45, 32]);
        render_xattr(out, &x.local[i]);
        crate::image::push_bytes(out, &[10]);
        proof {
            assert(out@ =~= loc0 + seq![32u8, 32u8, 32u8, 32u8, 32u8, 32u8, 32u8, 32u8, 32u8, 76u8, 111u8, 99u8, 97u8, 108u8, 32u8, 120u8, 97u8, 116u8, 116u8, 114u8, 115u8, 58u8, 10u8] + local_xattrs_upto(x.local@, i as int + 1));
        }
        i = i + 1;
    }
    proof {
        assert(final(out)@ =~= old(out)@ + render_opt_xattrs_spec(*xattrs));
    }
}

/// The debug name of a directory entry's file type.
pub open spec fn file_type_name(t: crate::erofs::format::FileType) -> Seq<u8> {
    match t {
        crate::erofs::format::FileType::Unknown => seq![85u8, 110u8, 107u8, 110u8, 111u8, 119u8, 110u8],
        crate::erofs::format::FileType::RegularFile => seq![82u8, 101u8, 103u8, 117u8, 108u8, 97u8, 114u8, 70u8, 105u8, 108u8, 101u8],
        crate::erofs::format::FileType::Directory => seq![68u8, 105u8, 114u8, 101u8, 99u8, 116u8, 111u8, 114u8, 121u8],
        crate::erofs::format::FileType::CharacterDevice => seq![67u8, 104u8, 97u8, 114u8, 97u8, 99u8, 116u8, 101u8, 114u8, 68u8, 101u8, 118u8, 105u8, 99u8, 101u8],
        crate::erofs::format::FileType::BlockDevice => seq![66u8, 108u8, 111u8, 99u8, 107u8, 68u8, 101u8, 118u8, 105u8, 99u8, 101u8],
        crate::erofs::format::FileType::Fifo => seq![70u8, 105u8, 102u8, 111u8],
        crate::erofs::format::FileType::Socket => seq![83u8, 111u8, 99u8, 107u8, 101u8, 116u8],
        crate::erofs::format::FileType::Symlink => seq![83u8, 121u8, 109u8, 108u8, 105u8, 110u8, 107u8],
    }
}

/// Append the debug name of a file type.
pub fn push_file_type(out: &mut Vec<u8>, t: crate::erofs::format::FileType)
    ensures
        final(out)@ == old(out)@ + file_type_name(t),
{
    match t {
        crate::erofs::format::FileType::Unknown => crate::image::push_bytes(out, &[85, 110, 107, 110, 111, 119, 110]),
        crate::erofs::format::FileType::RegularFile => crate::image::push_bytes(
            out,
            &[82, 101, 103, 117, 108, 97, 114, 70, 105, 108, 101],
        ),
        crate::erofs::format::FileType::Directory => crate::image::push_bytes(
            out,
            &[68, 105, 114, 101, 99, 116, 111, 114, 121],
        ),
        crate::erofs::format::FileType::CharacterDevice => crate::image::push_bytes(
            out,
            &[67, 104, 97, 114, 97, 99, 116, 101, 114, 68, 101, 118, 105, 99, 101],
        ),
        crate::erofs::format::FileType::BlockDevice => crate::image::push_bytes(
            out,
            &[66, 108, 111, 99, 107, 68, 101, 118, 105, 99, 101],
        ),
        crate::erofs::format::FileType::Fifo => crate::image::push_bytes(out, &[70, 105, 102, 111]),
        crate::erofs::format::FileType::Socket => crate::image::push_bytes(out, &[83, 111, 99, 107, 101, 116]),
        crate::erofs::format::FileType::Symlink => crate::image::push_bytes(
            out,
            &[83, 121, 109, 108, 105, 110, 107],
        ),
    }
}

/// One directory listing line: the name in display form, the entry type,
/// and the inode it names.
pub open spec fn dirents_upto(entries: Seq<crate::erofs::reader::DirectoryEntry>, i: int) -> Seq<
    u8,
>
    decreases i,
{
    if i <= 0 {
        Seq::empty()
    } else {
        dirents_upto(entries, i - 1) + seq![32u8, 32u8, 32u8, 32u8, 32u8, 32u8, 32u8, 32u8, 32u8, 32u8, 32u8, 32u8, 32u8] + utf8_or_hex_spec(entries[i - 1].name@) + seq![32u8]
            + file_type_name(entries[i - 1].file_type) + seq![32u8, 45u8, 62u8, 32u8] + dec(entries[i - 1].inode as int)
            + seq![10u8]
    }
}

/// Append a directory block's listing, one line per entry.
pub fn print_directory_block(out: &mut Vec<u8>, block: &DirectoryBlock)
    ensures
        final(out)@ == old(out)@ + dirents_upto(block.entries@, block.entries@.len() as int),
{
    let mut i: usize = 0;
    while i < block.entries.len()
        invariant
            0 <= i <= block.entries@.len(),
            out@ == old(out)@ + dirents_upto(block.entries@, i as int),
        decreases block.entries@.len() - i,
    {
        crate::image::push_bytes(out, &[32, 32, 32, 32, 32, 32, 32, 32, 32, 32, 32, 32, 32]);
        utf8_or_hex(out, block.entries[i].name.as_slice());
        crate::image::push_bytes(out, &[32]);
        push_file_type(out, block.entries[i].file_type);
        crate::image::push_bytes(out, &[32, 45, 62, 32]);
        push_dec(out, block.entries[i].inode);
        crate::image::push_bytes(out, &[10]);
        proof {
            assert(out@ =~= old(out)@ + dirents_upto(block.entries@, i as int + 1));
        }
        i = i + 1;
    }
}


/// One field line of the report: the field's offset within its record, its
/// name, and its decimal value; a field equal to its default is omitted.
pub open spec fn field_dec_spec(off: int, name: Seq<u8>, v: int, dflt: int) -> Seq<u8> {
    if v == dflt {
        Seq::empty()
    } else {
        seq![32u8, 32u8, 32u8, 32u8, 32u8, 43u8] + hex2(off) + seq![32u8, 32u8, 32u8, 32u8] + name + seq![58u8, 32u8] + dec(v) + seq![10u8]
    }
}

/// Append one decimal field line, omitting the default.
pub fn field_dec(out: &mut Vec<u8>, off: u8, name: &[u8], v: u64, dflt: u64)
    ensures
        final(out)@ == old(out)@ + field_dec_spec(off as int, name@, v as int, dflt as int),
{
    if v != dflt {
        crate::image::push_bytes(out, &[32, 32, 32, 32, 32, 43]);
        push_hex2(out, off);
        crate::image::push_bytes(out, &[32, 32, 32, 32]);
        crate::image::push_bytes(out, name);
        crate::image::push_bytes(out, &[58, 32]);
        push_dec(out, v);
        crate::image::push_bytes(out, &[10]);
    }
    proof {
        assert(final(out)@ =~= old(out)@ + field_dec_spec(
            off as int,
            name@,
            v as int,
            dflt as int,
        ));
    }
}

/// One field line holding a byte list; a list of zeroes is omitted.
pub open spec fn field_bytes_spec(off: int, name: Seq<u8>, b: Seq<u8>) -> Seq<u8> {
    if (exists|i: int| 0 <= i < b.len() && b[i] != 0) {
        seq![32u8, 32u8, 32u8, 32u8, 32u8, 43u8] + hex2(off) + seq![32u8, 32u8, 32u8, 32u8] + name + seq![58u8, 32u8] + debug_bytes(b) + seq![10u8]
    } else {
        Seq::empty()
    }
}

/// Append one byte-list field line, omitting an all-zero list.
pub fn field_bytes(out: &mut Vec<u8>, off: u8, name: &[u8], b: &[u8])
    ensures
        final(out)@ == old(out)@ + field_bytes_spec(off as int, name@, b@),
{
    let mut any: bool = false;
    let mut i: usize = 0;
    while i < b.len()
        invariant
            0 <= i <= b@.len(),
            any == (exists|j: int| 0 <= j < i && b@[j] != 0),
        decreases b@.len() - i,
    {
        if b[i] != 0 {
            any = true;
        }
        i = i + 1;
    }
    if any {
        crate::image::push_bytes(out, &[32, 32, 32, 32, 32, 43]);
        push_hex2(out, off);
        crate::image::push_bytes(out, &[32, 32, 32, 32]);
        crate::image::push_bytes(out, name);
        crate::image::push_bytes(out, &[58, 32]);
        push_debug_bytes(out, b);
        crate::image::push_bytes(out, &[10]);
    }
    proof {
        assert(final(out)@ =~= old(out)@ + field_bytes_spec(off as int, name@, b@));
    }
}

/// The display form of a format field's value: the raw number with the
/// names of the two layouts it packs.
pub open spec fn format_value_spec(v: u16) -> Seq<u8> {
    dec(v as int) + seq![32u8, 61u8, 32u8] + (if crate::erofs::format::spec_inode_layout_of(
        v,
    ) is Extended {
        seq![69u8, 120u8, 116u8, 101u8, 110u8, 100u8, 101u8, 100u8]
    } else {
        seq![67u8, 111u8, 109u8, 112u8, 97u8, 99u8, 116u8]
    }) + seq![32u8, 124u8, 32u8] + (match crate::erofs::format::spec_data_layout_of(v) {
        Ok(crate::erofs::format::DataLayout::FlatPlain) => seq![79u8, 107u8, 40u8, 70u8, 108u8, 97u8, 116u8, 80u8, 108u8, 97u8, 105u8, 110u8, 41u8],
        Ok(crate::erofs::format::DataLayout::FlatInline) => seq![79u8, 107u8, 40u8, 70u8, 108u8, 97u8, 116u8, 73u8, 110u8, 108u8, 105u8, 110u8, 101u8, 41u8],
        Ok(crate::erofs::format::DataLayout::ChunkBased) => seq![79u8, 107u8, 40u8, 67u8, 104u8, 117u8, 110u8, 107u8, 66u8, 97u8, 115u8, 101u8, 100u8, 41u8],
        Err(_) => seq![69u8, 114u8, 114u8, 40u8, 73u8, 110u8, 118u8, 97u8, 108u8, 105u8, 100u8, 68u8, 97u8, 116u8, 97u8, 76u8, 97u8, 121u8, 111u8, 117u8, 116u8, 41u8],
    })
}

/// The format field line; the `0xffff` sentinel is the default and is
/// omitted.
pub open spec fn field_format_spec(v: u16) -> Seq<u8> {
    if v == 0xffff {
        Seq::empty()
    } else {
        seq![32u8, 32u8, 32u8, 32u8, 32u8, 43u8] + hex2(0) + seq![32u8, 32u8, 32u8, 32u8] + seq![102u8, 111u8, 114u8, 109u8, 97u8, 116u8] + seq![58u8, 32u8] + format_value_spec(v) + seq![10u8]
    }
}

/// Append the format field line, omitting the sentinel default.
pub fn field_format(out: &mut Vec<u8>, v: u16)
    ensures
        final(out)@ == old(out)@ + field_format_spec(v),
{
    if v != 0xffff {
        crate::image::push_bytes(out, &[32, 32, 32, 32, 32, 43]);
        push_hex2(out, 0);
        crate::image::push_bytes(out, &[32, 32, 32, 32]);
        crate::image::push_bytes(out, &[102, 111, 114, 109, 97, 116]);
        crate::image::push_bytes(out, &[58, 32]);
        push_dec(out, v as u64);
        crate::image::push_bytes(out, &[32, 61, 32]);
        let ff = FormatField(v);
        match ff.inode_layout() {
            InodeLayout::Extended => crate::image::push_bytes(out, &[69, 120, 116, 101, 110, 100, 101, 100]),
            InodeLayout::Compact => crate::image::push_bytes(out, &[67, 111, 109, 112, 97, 99, 116]),
        }
        crate::image::push_bytes(out, &[32, 124, 32]);
        match ff.data_layout() {
            Ok(DataLayout::FlatPlain) => crate::image::push_bytes(out, &[79, 107, 40, 70, 108, 97, 116, 80, 108, 97, 105, 110, 41]),
            Ok(DataLayout::FlatInline) => crate::image::push_bytes(out, &[79, 107, 40, 70, 108, 97, 116, 73, 110, 108, 105, 110, 101, 41]),
            Ok(DataLayout::ChunkBased) => crate::image::push_bytes(out, &[79, 107, 40, 67, 104, 117, 110, 107, 66, 97, 115, 101, 100, 41]),
            Err(_) => crate::image::push_bytes(out, &[69, 114, 114, 40, 73, 110, 118, 97, 108, 105, 100, 68, 97, 116, 97, 76, 97, 121, 111, 117, 116, 41]),
        }
        crate::image::push_bytes(out, &[10]);
    }
    proof {
        assert(final(out)@ =~= old(out)@ + field_format_spec(v));
    }
}

/// The field lines of the composefs header.
pub open spec fn cheader_fields_spec(h: ComposefsHeader) -> Seq<u8> {
    field_dec_spec(0x00, seq![109u8, 97u8, 103u8, 105u8, 99u8], h.magic as int, 0) + field_dec_spec(
        0x08,
        seq![102u8, 108u8, 97u8, 103u8, 115u8],
        h.flags as int,
        0,
    ) + field_dec_spec(0x04, seq![118u8, 101u8, 114u8, 115u8, 105u8, 111u8, 110u8], h.version as int, 0) + field_dec_spec(
        0x0c,
        seq![99u8, 111u8, 109u8, 112u8, 111u8, 115u8, 101u8, 102u8, 115u8, 95u8, 118u8, 101u8, 114u8, 115u8, 105u8, 111u8, 110u8],
        h.composefs_version as int,
        0,
    )
}

/// Append the field lines of the composefs header.
pub fn render_cheader(out: &mut Vec<u8>, h: &ComposefsHeader)
    ensures
        final(out)@ == old(out)@ + cheader_fields_spec(*h),
{
    let ghost o0 = out@;
    field_dec(out, 0x00, &[109, 97, 103, 105, 99], h.magic as u64, 0);
    proof {
        assert(out@ == o0 + field_dec_spec(0x00, seq![109u8, 97u8, 103u8, 105u8, 99u8], h.magic as int, 0));
    }
    field_dec(out, 0x08, &[102, 108, 97, 103, 115], h.flags as u64, 0);
    proof {
        vstd::seq_lib::lemma_concat_associative(o0, field_dec_spec(0x00, seq![109u8, 97u8, 103u8, 105u8, 99u8], h.magic as int, 0), field_dec_spec(0x08, seq![102u8, 108u8, 97u8, 103u8, 115u8], h.flags as int, 0));
        assert(out@ == o0 + (field_dec_spec(0x00, seq![109u8, 97u8, 103u8, 105u8, 99u8], h.magic as int, 0) + field_dec_spec(0x08, seq![102u8, 108u8, 97u8, 103u8, 115u8], h.flags as int, 0)));
    }
    field_dec(out, 0x04, &[118, 101, 114, 115, 105, 111, 110], h.version as u64, 0);
    proof {
        vstd::seq_lib::lemma_concat_associative(o0, field_dec_spec(0x00, seq![109u8, 97u8, 103u8, 105u8, 99u8], h.magic as int, 0) + field_dec_spec(0x08, seq![102u8, 108u8, 97u8, 103u8, 115u8], h.flags as int, 0), field_dec_spec(0x04, seq![118u8, 101u8, 114u8, 115u8, 105u8, 111u8, 110u8], h.version as int, 0));
        assert(out@ == o0 + (field_dec_spec(0x00, seq![109u8, 97u8, 103u8, 105u8, 99u8], h.magic as int, 0) + field_dec_spec(0x08, seq![102u8, 108u8, 97u8, 103u8, 115u8], h.flags as int, 0) + field_dec_spec(0x04, seq![118u8, 101u8, 114u8, 115u8, 105u8, 111u8, 110u8], h.version as int, 0)));
    }
    field_dec(out, 0x0c, &[99, 111, 109, 112, 111, 115, 101, 102, 115, 95, 118, 101, 114, 115, 105, 111, 110], h.composefs_version as u64, 0);
    proof {
        vstd::seq_lib::lemma_concat_associative(o0, field_dec_spec(0x00, seq![109u8, 97u8, 103u8, 105u8, 99u8], h.magic as int, 0) + field_dec_spec(0x08, seq![102u8, 108u8, 97u8, 103u8, 115u8], h.flags as int, 0) + field_dec_spec(0x04, seq![118u8, 101u8, 114u8, 115u8, 105u8, 111u8, 110u8], h.version as int, 0), field_dec_spec(0x0c, seq![99u8, 111u8, 109u8, 112u8, 111u8, 115u8, 101u8, 102u8, 115u8, 95u8, 118u8, 101u8, 114u8, 115u8, 105u8, 111u8, 110u8], h.composefs_version as int, 0));
        assert(out@ == o0 + (field_dec_spec(0x00, seq![109u8, 97u8, 103u8, 105u8, 99u8], h.magic as int, 0) + field_dec_spec(0x08, seq![102u8, 108u8, 97u8, 103u8, 115u8], h.flags as int, 0) + field_dec_spec(0x04, seq![118u8, 101u8, 114u8, 115u8, 105u8, 111u8, 110u8], h.version as int, 0) + field_dec_spec(0x0c, seq![99u8, 111u8, 109u8, 112u8, 111u8, 115u8, 101u8, 102u8, 115u8, 95u8, 118u8, 101u8, 114u8, 115u8, 105u8, 111u8, 110u8], h.composefs_version as int, 0)));
    }
    proof {
        assert(final(out)@ == o0 + cheader_fields_spec(*h));
    }
}

/// The first third of the superblock's field lines.
pub open spec fn superblock_fields_a(b: Superblock) -> Seq<u8> {
    field_dec_spec(0x00, seq![109u8, 97u8, 103u8, 105u8, 99u8], b.magic as int, 0) + field_dec_spec(
        0x04,
        seq![99u8, 104u8, 101u8, 99u8, 107u8, 115u8, 117u8, 109u8],
        b.checksum as int,
        0,
    ) + field_dec_spec(0x08, seq![102u8, 101u8, 97u8, 116u8, 117u8, 114u8, 101u8, 95u8, 99u8, 111u8, 109u8, 112u8, 97u8, 116u8], b.feature_compat as int, 0)
        + field_dec_spec(0x0c, seq![98u8, 108u8, 107u8, 115u8, 122u8, 98u8, 105u8, 116u8, 115u8], b.blkszbits as int, 0) + field_dec_spec(
        0x0d,
        seq![101u8, 120u8, 116u8, 115u8, 108u8, 111u8, 116u8, 115u8],
        b.extslots as int,
        0,
    ) + field_dec_spec(0x0e, seq![114u8, 111u8, 111u8, 116u8, 95u8, 110u8, 105u8, 100u8], b.root_nid as int, 0) + field_dec_spec(
        0x10,
        seq![105u8, 110u8, 111u8, 115u8],
        b.inos as int,
        0,
    ) + field_dec_spec(0x18, seq![98u8, 117u8, 105u8, 108u8, 100u8, 95u8, 116u8, 105u8, 109u8, 101u8], b.build_time as int, 0)
}

/// The second third of the superblock's field lines.
pub open spec fn superblock_fields_b(b: Superblock) -> Seq<u8> {
    field_dec_spec(0x20, seq![98u8, 117u8, 105u8, 108u8, 100u8, 95u8, 116u8, 105u8, 109u8, 101u8, 95u8, 110u8, 115u8, 101u8, 99u8], b.build_time_nsec as int, 0)
        + field_dec_spec(0x24, seq![98u8, 108u8, 111u8, 99u8, 107u8, 115u8], b.blocks as int, 0) + field_dec_spec(
        0x28,
        seq![109u8, 101u8, 116u8, 97u8, 95u8, 98u8, 108u8, 107u8, 97u8, 100u8, 100u8, 114u8],
        b.meta_blkaddr as int,
        0,
    ) + field_dec_spec(0x2c, seq![120u8, 97u8, 116u8, 116u8, 114u8, 95u8, 98u8, 108u8, 107u8, 97u8, 100u8, 100u8, 114u8], b.xattr_blkaddr as int, 0)
        + field_bytes_spec(0x30, seq![117u8, 117u8, 105u8, 100u8], b.uuid@) + field_bytes_spec(
        0x40,
        seq![118u8, 111u8, 108u8, 117u8, 109u8, 101u8, 95u8, 110u8, 97u8, 109u8, 101u8],
        b.volume_name@,
    ) + field_dec_spec(0x50, seq![102u8, 101u8, 97u8, 116u8, 117u8, 114u8, 101u8, 95u8, 105u8, 110u8, 99u8, 111u8, 109u8, 112u8, 97u8, 116u8], b.feature_incompat as int, 0)
        + field_dec_spec(
        0x54,
        seq![97u8, 118u8, 97u8, 105u8, 108u8, 97u8, 98u8, 108u8, 101u8, 95u8, 99u8, 111u8, 109u8, 112u8, 114u8, 95u8, 97u8, 108u8, 103u8, 115u8],
        b.available_compr_algs as int,
        0,
    )
}

/// The last third of the superblock's field lines.
pub open spec fn superblock_fields_c(b: Superblock) -> Seq<u8> {
    field_dec_spec(0x56, seq![101u8, 120u8, 116u8, 114u8, 97u8, 95u8, 100u8, 101u8, 118u8, 105u8, 99u8, 101u8, 115u8], b.extra_devices as int, 0) + field_dec_spec(
        0x58,
        seq![100u8, 101u8, 118u8, 116u8, 95u8, 115u8, 108u8, 111u8, 116u8, 111u8, 102u8, 102u8],
        b.devt_slotoff as int,
        0,
    ) + field_dec_spec(0x5a, seq![100u8, 105u8, 114u8, 98u8, 108u8, 107u8, 98u8, 105u8, 116u8, 115u8], b.dirblkbits as int, 0) + field_dec_spec(
        0x5b,
        seq![120u8, 97u8, 116u8, 116u8, 114u8, 95u8, 112u8, 114u8, 101u8, 102u8, 105u8, 120u8, 95u8, 99u8, 111u8, 117u8, 110u8, 116u8],
        b.xattr_prefix_count as int,
        0,
    ) + field_dec_spec(0x5c, seq![120u8, 97u8, 116u8, 116u8, 114u8, 95u8, 112u8, 114u8, 101u8, 102u8, 105u8, 120u8, 95u8, 115u8, 116u8, 97u8, 114u8, 116u8], b.xattr_prefix_start as int, 0)
        + field_dec_spec(0x60, seq![112u8, 97u8, 99u8, 107u8, 101u8, 100u8, 95u8, 110u8, 105u8, 100u8], b.packed_nid as int, 0) + field_dec_spec(
        0x68,
        seq![120u8, 97u8, 116u8, 116u8, 114u8, 95u8, 102u8, 105u8, 108u8, 116u8, 101u8, 114u8, 95u8, 114u8, 101u8, 115u8, 101u8, 114u8, 118u8, 101u8, 100u8],
        b.xattr_filter_reserved as int,
        0,
    ) + field_bytes_spec(0x69, seq![114u8, 101u8, 115u8, 101u8, 114u8, 118u8, 101u8, 100u8, 50u8], b.reserved2@)
}

/// The field lines of the superblock.
pub open spec fn superblock_fields_spec(b: Superblock) -> Seq<u8> {
    superblock_fields_a(b) + superblock_fields_b(b) + superblock_fields_c(b)
}

fn render_superblock_a(out: &mut Vec<u8>, b: &Superblock)
    ensures
        final(out)@ == old(out)@ + superblock_fields_a(*b),
{
    let ghost o0 = out@;
    field_dec(out, 0x00, &[109, 97, 103, 105, 99], b.magic as u64, 0);
    proof {
        assert(out@ == o0 + field_dec_spec(0x00, seq![109u8, 97u8, 103u8, 105u8, 99u8], b.magic as int, 0));
    }
    field_dec(out, 0x04, &[99, 104, 101, 99, 107, 115, 117, 109], b.checksum as u64, 0);
    proof {
        vstd::seq_lib::lemma_concat_associative(o0, field_dec_spec(0x00, seq![109u8, 97u8, 103u8, 105u8, 99u8], b.magic as int, 0), field_dec_spec(0x04, seq![99u8, 104u8, 101u8, 99u8, 107u8, 115u8, 117u8, 109u8], b.checksum as int, 0));
        assert(out@ == o0 + (field_dec_spec(0x00, seq![109u8, 97u8, 103u8, 105u8, 99u8], b.magic as int, 0) + field_dec_spec(0x04, seq![99u8, 104u8, 101u8, 99u8, 107u8, 115u8, 117u8, 109u8], b.checksum as int, 0)));
    }
    field_dec(out, 0x08, &[102, 101, 97, 116, 117, 114, 101, 95, 99, 111, 109, 112, 97, 116], b.feature_compat as u64, 0);
    proof {
        vstd::seq_lib::lemma_concat_associative(o0, field_dec_spec(0x00, seq![109u8, 97u8, 103u8, 105u8, 99u8], b.magic as int, 0) + field_dec_spec(0x04, seq![99u8, 104u8, 101u8, 99u8, 107u8, 115u8, 117u8, 109u8], b.checksum as int, 0), field_dec_spec(0x08, seq![102u8, 101u8, 97u8, 116u8, 117u8, 114u8, 101u8, 95u8, 99u8, 111u8, 109u8, 112u8, 97u8, 116u8], b.feature_compat as int, 0));
        assert(out@ == o0 + (field_dec_spec(0x00, seq![109u8, 97u8, 103u8, 105u8, 99u8], b.magic as int, 0) + field_dec_spec(0x04, seq![99u8, 104u8, 101u8, 99u8, 107u8, 115u8, 117u8, 109u8], b.checksum as int, 0) + field_dec_spec(0x08, seq![102u8, 101u8, 97u8, 116u8, 117u8, 114u8, 101u8, 95u8, 99u8, 111u8, 109u8, 112u8, 97u8, 116u8], b.feature_compat as int, 0)));
    }
    field_dec(out, 0x0c, &[98, 108, 107, 115, 122, 98, 105, 116, 115], b.blkszbits as u64, 0);
    proof {
        vstd::seq_lib::lemma_concat_associative(o0, field_dec_spec(0x00, seq![109u8, 97u8, 103u8, 105u8, 99u8], b.magic as int, 0) + field_dec_spec(0x04, seq![99u8, 104u8, 101u8, 99u8, 107u8, 115u8, 117u8, 109u8], b.checksum as int, 0) + field_dec_spec(0x08, seq![102u8, 101u8, 97u8, 116u8, 117u8, 114u8, 101u8, 95u8, 99u8, 111u8, 109u8, 112u8, 97u8, 116u8], b.feature_compat as int, 0), field_dec_spec(0x0c, seq![98u8, 108u8, 107u8, 115u8, 122u8, 98u8, 105u8, 116u8, 115u8], b.blkszbits as int, 0));
        assert(out@ == o0 + (field_dec_spec(0x00, seq![109u8, 97u8, 103u8, 105u8, 99u8], b.magic as int, 0) + field_dec_spec(0x04, seq![99u8, 104u8, 101u8, 99u8, 107u8, 115u8, 117u8, 109u8], b.checksum as int, 0) + field_dec_spec(0x08, seq![102u8, 101u8, 97u8, 116u8, 117u8, 114u8, 101u8, 95u8, 99u8, 111u8, 109u8, 112u8, 97u8, 116u8], b.feature_compat as int, 0) + field_dec_spec(0x0c, seq![98u8, 108u8, 107u8, 115u8, 122u8, 98u8, 105u8, 116u8, 115u8], b.blkszbits as int, 0)));
    }
    field_dec(out, 0x0d, &[101, 120, 116, 115, 108, 111, 116, 115], b.extslots as u64, 0);
    proof {
        vstd::seq_lib::lemma_concat_associative(o0, field_dec_spec(0x00, seq![109u8, 97u8, 103u8, 105u8, 99u8], b.magic as int, 0) + field_dec_spec(0x04, seq![99u8, 104u8, 101u8, 99u8, 107u8, 115u8, 117u8, 109u8], b.checksum as int, 0) + field_dec_spec(0x08, seq![102u8, 101u8, 97u8, 116u8, 117u8, 114u8, 101u8, 95u8, 99u8, 111u8, 109u8, 112u8, 97u8, 116u8], b.feature_compat as int, 0) + field_dec_spec(0x0c, seq![98u8, 108u8, 107u8, 115u8, 122u8, 98u8, 105u8, 116u8, 115u8], b.blkszbits as int, 0), field_dec_spec(0x0d, seq![101u8, 120u8, 116u8, 115u8, 108u8, 111u8, 116u8, 115u8], b.extslots as int, 0));
        assert(out@ == o0 + (field_dec_spec(0x00, seq![109u8, 97u8, 103u8, 105u8, 99u8], b.magic as int, 0) + field_dec_spec(0x04, seq![99u8, 104u8, 101u8, 99u8, 107u8, 115u8, 117u8, 109u8], b.checksum as int, 0) + field_dec_spec(0x08, seq![102u8, 101u8, 97u8, 116u8, 117u8, 114u8, 101u8, 95u8, 99u8, 111u8, 109u8, 112u8, 97u8, 116u8], b.feature_compat as int, 0) + field_dec_spec(0x0c, seq![98u8, 108u8, 107u8, 115u8, 122u8, 98u8, 105u8, 116u8, 115u8], b.blkszbits as int, 0) + field_dec_spec(0x0d, seq![101u8, 120u8, 116u8, 115u8, 108u8, 111u8, 116u8, 115u8], b.extslots as int, 0)));
    }
    field_dec(out, 0x0e, &[114, 111, 111, 116, 95, 110, 105, 100], b.root_nid as u64, 0);
    proof {
        vstd::seq_lib::lemma_concat_associative(o0, field_dec_spec(0x00, seq![109u8, 97u8, 103u8, 105u8, 99u8], b.magic as int, 0) + field_dec_spec(0x04, seq![99u8, 104u8, 101u8, 99u8, 107u8, 115u8, 117u8, 109u8], b.checksum as int, 0) + field_dec_spec(0x08, seq![102u8, 101u8, 97u8, 116u8, 117u8, 114u8, 101u8, 95u8, 99u8, 111u8, 109u8, 112u8, 97u8, 116u8], b.feature_compat as int, 0) + field_dec_spec(0x0c, seq![98u8, 108u8, 107u8, 115u8, 122u8, 98u8, 105u8, 116u8, 115u8], b.blkszbits as int, 0) + field_dec_spec(0x0d, seq![101u8, 120u8, 116u8, 115u8, 108u8, 111u8, 116u8, 115u8], b.extslots as int, 0), field_dec_spec(0x0e, seq![114u8, 111u8, 111u8, 116u8, 95u8, 110u8, 105u8, 100u8], b.root_nid as int, 0));
        assert(out@ == o0 + (field_dec_spec(0x00, seq![109u8, 97u8, 103u8, 105u8, 99u8], b.magic as int, 0) + field_dec_spec(0x04, seq![99u8, 104u8, 101u8, 99u8, 107u8, 115u8, 117u8, 109u8], b.checksum as int, 0) + field_dec_spec(0x08, seq![102u8, 101u8, 97u8, 116u8, 117u8, 114u8, 101u8, 95u8, 99u8, 111u8, 109u8, 112u8, 97u8, 116u8], b.feature_compat as int, 0) + field_dec_spec(0x0c, seq![98u8, 108u8, 107u8, 115u8, 122u8, 98u8, 105u8, 116u8, 115u8], b.blkszbits as int, 0) + field_dec_spec(0x0d, seq![101u8, 120u8, 116u8, 115u8, 108u8, 111u8, 116u8, 115u8], b.extslots as int, 0) + field_dec_spec(0x0e, seq![114u8, 111u8, 111u8, 116u8, 95u8, 110u8, 105u8, 100u8], b.root_nid as int, 0)));
    }
    field_dec(out, 0x10, &[105, 110, 111, 115], b.inos, 0);
    proof {
        vstd::seq_lib::lemma_concat_associative(o0, field_dec_spec(0x00, seq![109u8, 97u8, 103u8, 105u8, 99u8], b.magic as int, 0) + field_dec_spec(0x04, seq![99u8, 104u8, 101u8, 99u8, 107u8, 115u8, 117u8, 109u8], b.checksum as int, 0) + field_dec_spec(0x08, seq![102u8, 101u8, 97u8, 116u8, 117u8, 114u8, 101u8, 95u8, 99u8, 111u8, 109u8, 112u8, 97u8, 116u8], b.feature_compat as int, 0) + field_dec_spec(0x0c, seq![98u8, 108u8, 107u8, 115u8, 122u8, 98u8, 105u8, 116u8, 115u8], b.blkszbits as int, 0) + field_dec_spec(0x0d, seq![101u8, 120u8, 116u8, 115u8, 108u8, 111u8, 116u8, 115u8], b.extslots as int, 0) + field_dec_spec(0x0e, seq![114u8, 111u8, 111u8, 116u8, 95u8, 110u8, 105u8, 100u8], b.root_nid as int, 0), field_dec_spec(0x10, seq![105u8, 110u8, 111u8, 115u8], b.inos as int, 0));
        assert(out@ == o0 + (field_dec_spec(0x00, seq![109u8, 97u8, 103u8, 105u8, 99u8], b.magic as int, 0) + field_dec_spec(0x04, seq![99u8, 104u8, 101u8, 99u8, 107u8, 115u8, 117u8, 109u8], b.checksum as int, 0) + field_dec_spec(0x08, seq![102u8, 101u8, 97u8, 116u8, 117u8, 114u8, 101u8, 95u8, 99u8, 111u8, 109u8, 112u8, 97u8, 116u8], b.feature_compat as int, 0) + field_dec_spec(0x0c, seq![98u8, 108u8, 107u8, 115u8, 122u8, 98u8, 105u8, 116u8, 115u8], b.blkszbits as int, 0) + field_dec_spec(0x0d, seq![101u8, 120u8, 116u8, 115u8, 108u8, 111u8, 116u8, 115u8], b.extslots as int, 0) + field_dec_spec(0x0e, seq![114u8, 111u8, 111u8, 116u8, 95u8, 110u8, 105u8, 100u8], b.root_nid as int, 0) + field_dec_spec(0x10, seq![105u8, 110u8, 111u8, 115u8], b.inos as int, 0)));
    }
    field_dec(out, 0x18, &[98, 117, 105, 108, 100, 95, 116, 105, 109, 101], b.build_time, 0);
    proof {
        vstd::seq_lib::lemma_concat_associative(o0, field_dec_spec(0x00, seq![109u8, 97u8, 103u8, 105u8, 99u8], b.magic as int, 0) + field_dec_spec(0x04, seq![99u8, 104u8, 101u8, 99u8, 107u8, 115u8, 117u8, 109u8], b.checksum as int, 0) + field_dec_spec(0x08, seq![102u8, 101u8, 97u8, 116u8, 117u8, 114u8, 101u8, 95u8, 99u8, 111u8, 109u8, 112u8, 97u8, 116u8], b.feature_compat as int, 0) + field_dec_spec(0x0c, seq![98u8, 108u8, 107u8, 115u8, 122u8, 98u8, 105u8, 116u8, 115u8], b.blkszbits as int, 0) + field_dec_spec(0x0d, seq![101u8, 120u8, 116u8, 115u8, 108u8, 111u8, 116u8, 115u8], b.extslots as int, 0) + field_dec_spec(0x0e, seq![114u8, 111u8, 111u8, 116u8, 95u8, 110u8, 105u8, 100u8], b.root_nid as int, 0) + field_dec_spec(0x10, seq![105u8, 110u8, 111u8, 115u8], b.inos as int, 0), field_dec_spec(0x18, seq![98u8, 117u8, 105u8, 108u8, 100u8, 95u8, 116u8, 105u8, 109u8, 101u8], b.build_time as int, 0));
        assert(out@ == o0 + (field_dec_spec(0x00, seq![109u8, 97u8, 103u8, 105u8, 99u8], b.magic as int, 0) + field_dec_spec(0x04, seq![99u8, 104u8, 101u8, 99u8, 107u8, 115u8, 117u8, 109u8], b.checksum as int, 0) + field_dec_spec(0x08, seq![102u8, 101u8, 97u8, 116u8, 117u8, 114u8, 101u8, 95u8, 99u8, 111u8, 109u8, 112u8, 97u8, 116u8], b.feature_compat as int, 0) + field_dec_spec(0x0c, seq![98u8, 108u8, 107u8, 115u8, 122u8, 98u8, 105u8, 116u8, 115u8], b.blkszbits as int, 0) + field_dec_spec(0x0d, seq![101u8, 120u8, 116u8, 115u8, 108u8, 111u8, 116u8, 115u8], b.extslots as int, 0) + field_dec_spec(0x0e, seq![114u8, 111u8, 111u8, 116u8, 95u8, 110u8, 105u8, 100u8], b.root_nid as int, 0) + field_dec_spec(0x10, seq![105u8, 110u8, 111u8, 115u8], b.inos as int, 0) + field_dec_spec(0x18, seq![98u8, 117u8, 105u8, 108u8, 100u8, 95u8, 116u8, 105u8, 109u8, 101u8], b.build_time as int, 0)));
    }
    proof {
        assert(final(out)@ == o0 + superblock_fields_a(*b));
    }
}

fn render_superblock_b(out: &mut Vec<u8>, b: &Superblock)
    ensures
        final(out)@ == old(out)@ + superblock_fields_b(*b),
{
    let ghost o0 = out@;
    field_dec(out, 0x20, &[98, 117, 105, 108, 100, 95, 116, 105, 109, 101, 95, 110, 115, 101, 99], b.build_time_nsec as u64, 0);
    proof {
        assert(out@ == o0 + field_dec_spec(0x20, seq![98u8, 117u8, 105u8, 108u8, 100u8, 95u8, 116u8, 105u8, 109u8, 101u8, 95u8, 110u8, 115u8, 101u8, 99u8], b.build_time_nsec as int, 0));
    }
    field_dec(out, 0x24, &[98, 108, 111, 99, 107, 115], b.blocks as u64, 0);
    proof {
        vstd::seq_lib::lemma_concat_associative(o0, field_dec_spec(0x20, seq![98u8, 117u8, 105u8, 108u8, 100u8, 95u8, 116u8, 105u8, 109u8, 101u8, 95u8, 110u8, 115u8, 101u8, 99u8], b.build_time_nsec as int, 0), field_dec_spec(0x24, seq![98u8, 108u8, 111u8, 99u8, 107u8, 115u8], b.blocks as int, 0));
        assert(out@ == o0 + (field_dec_spec(0x20, seq![98u8, 117u8, 105u8, 108u8, 100u8, 95u8, 116u8, 105u8, 109u8, 101u8, 95u8, 110u8, 115u8, 101u8, 99u8], b.build_time_nsec as int, 0) + field_dec_spec(0x24, seq![98u8, 108u8, 111u8, 99u8, 107u8, 115u8], b.blocks as int, 0)));
    }
    field_dec(out, 0x28, &[109, 101, 116, 97, 95, 98, 108, 107, 97, 100, 100, 114], b.meta_blkaddr as u64, 0);
    proof {
        vstd::seq_lib::lemma_concat_associative(o0, field_dec_spec(0x20, seq![98u8, 117u8, 105u8, 108u8, 100u8, 95u8, 116u8, 105u8, 109u8, 101u8, 95u8, 110u8, 115u8, 101u8, 99u8], b.build_time_nsec as int, 0) + field_dec_spec(0x24, seq![98u8, 108u8, 111u8, 99u8, 107u8, 115u8], b.blocks as int, 0), field_dec_spec(0x28, seq![109u8, 101u8, 116u8, 97u8, 95u8, 98u8, 108u8, 107u8, 97u8, 100u8, 100u8, 114u8], b.meta_blkaddr as int, 0));
        assert(out@ == o0 + (field_dec_spec(0x20, seq![98u8, 117u8, 105u8, 108u8, 100u8, 95u8, 116u8, 105u8, 109u8, 101u8, 95u8, 110u8, 115u8, 101u8, 99u8], b.build_time_nsec as int, 0) + field_dec_spec(0x24, seq![98u8, 108u8, 111u8, 99u8, 107u8, 115u8], b.blocks as int, 0) + field_dec_spec(0x28, seq![109u8, 101u8, 116u8, 97u8, 95u8, 98u8, 108u8, 107u8, 97u8, 100u8, 100u8, 114u8], b.meta_blkaddr as int, 0)));
    }
    field_dec(out, 0x2c, &[120, 97, 116, 116, 114, 95, 98, 108, 107, 97, 100, 100, 114], b.xattr_blkaddr as u64, 0);
    proof {
        vstd::seq_lib::lemma_concat_associative(o0, field_dec_spec(0x20, seq![98u8, 117u8, 105u8, 108u8, 100u8, 95u8, 116u8, 105u8, 109u8, 101u8, 95u8, 110u8, 115u8, 101u8, 99u8], b.build_time_nsec as int, 0) + field_dec_spec(0x24, seq![98u8, 108u8, 111u8, 99u8, 107u8, 115u8], b.blocks as int, 0) + field_dec_spec(0x28, seq![109u8, 101u8, 116u8, 97u8, 95u8, 98u8, 108u8, 107u8, 97u8, 100u8, 100u8, 114u8], b.meta_blkaddr as int, 0), field_dec_spec(0x2c, seq![120u8, 97u8, 116u8, 116u8, 114u8, 95u8, 98u8, 108u8, 107u8, 97u8, 100u8, 100u8, 114u8], b.xattr_blkaddr as int, 0));
        assert(out@ == o0 + (field_dec_spec(0x20, seq![98u8, 117u8, 105u8, 108u8, 100u8, 95u8, 116u8, 105u8, 109u8, 101u8, 95u8, 110u8, 115u8, 101u8, 99u8], b.build_time_nsec as int, 0) + field_dec_spec(0x24, seq![98u8, 108u8, 111u8, 99u8, 107u8, 115u8], b.blocks as int, 0) + field_dec_spec(0x28, seq![109u8, 101u8, 116u8, 97u8, 95u8, 98u8, 108u8, 107u8, 97u8, 100u8, 100u8, 114u8], b.meta_blkaddr as int, 0) + field_dec_spec(0x2c, seq![120u8, 97u8, 116u8, 116u8, 114u8, 95u8, 98u8, 108u8, 107u8, 97u8, 100u8, 100u8, 114u8], b.xattr_blkaddr as int, 0)));
    }
    field_bytes(out, 0x30, &[117, 117, 105, 100], b.uuid.as_slice());
    proof {
        vstd::seq_lib::lemma_concat_associative(o0, field_dec_spec(0x20, seq![98u8, 117u8, 105u8, 108u8, 100u8, 95u8, 116u8, 105u8, 109u8, 101u8, 95u8, 110u8, 115u8, 101u8, 99u8], b.build_time_nsec as int, 0) + field_dec_spec(0x24, seq![98u8, 108u8, 111u8, 99u8, 107u8, 115u8], b.blocks as int, 0) + field_dec_spec(0x28, seq![109u8, 101u8, 116u8, 97u8, 95u8, 98u8, 108u8, 107u8, 97u8, 100u8, 100u8, 114u8], b.meta_blkaddr as int, 0) + field_dec_spec(0x2c, seq![120u8, 97u8, 116u8, 116u8, 114u8, 95u8, 98u8, 108u8, 107u8, 97u8, 100u8, 100u8, 114u8], b.xattr_blkaddr as int, 0), field_bytes_spec(0x30, seq![117u8, 117u8, 105u8, 100u8], b.uuid@));
        assert(out@ == o0 + (field_dec_spec(0x20, seq![98u8, 117u8, 105u8, 108u8, 100u8, 95u8, 116u8, 105u8, 109u8, 101u8, 95u8, 110u8, 115u8, 101u8, 99u8], b.build_time_nsec as int, 0) + field_dec_spec(0x24, seq![98u8, 108u8, 111u8, 99u8, 107u8, 115u8], b.blocks as int, 0) + field_dec_spec(0x28, seq![109u8, 101u8, 116u8, 97u8, 95u8, 98u8, 108u8, 107u8, 97u8, 100u8, 100u8, 114u8], b.meta_blkaddr as int, 0) + field_dec_spec(0x2c, seq![120u8, 97u8, 116u8, 116u8, 114u8, 95u8, 98u8, 108u8, 107u8, 97u8, 100u8, 100u8, 114u8], b.xattr_blkaddr as int, 0) + field_bytes_spec(0x30, seq![117u8, 117u8, 105u8, 100u8], b.uuid@)));
    }
    field_bytes(out, 0x40, &[118, 111, 108, 117, 109, 101, 95, 110, 97, 109, 101], b.volume_name.as_slice());
    proof {
        vstd::seq_lib::lemma_concat_associative(o0, field_dec_spec(0x20, seq![98u8, 117u8, 105u8, 108u8, 100u8, 95u8, 116u8, 105u8, 109u8, 101u8, 95u8, 110u8, 115u8, 101u8, 99u8], b.build_time_nsec as int, 0) + field_dec_spec(0x24, seq![98u8, 108u8, 111u8, 99u8, 107u8, 115u8], b.blocks as int, 0) + field_dec_spec(0x28, seq![109u8, 101u8, 116u8, 97u8, 95u8, 98u8, 108u8, 107u8, 97u8, 100u8, 100u8, 114u8], b.meta_blkaddr as int, 0) + field_dec_spec(0x2c, seq![120u8, 97u8, 116u8, 116u8, 114u8, 95u8, 98u8, 108u8, 107u8, 97u8, 100u8, 100u8, 114u8], b.xattr_blkaddr as int, 0) + field_bytes_spec(0x30, seq![117u8, 117u8, 105u8, 100u8], b.uuid@), field_bytes_spec(0x40, seq![118u8, 111u8, 108u8, 117u8, 109u8, 101u8, 95u8, 110u8, 97u8, 109u8, 101u8], b.volume_name@));
        assert(out@ == o0 + (field_dec_spec(0x20, seq![98u8, 117u8, 105u8, 108u8, 100u8, 95u8, 116u8, 105u8, 109u8, 101u8, 95u8, 110u8, 115u8, 101u8, 99u8], b.build_time_nsec as int, 0) + field_dec_spec(0x24, seq![98u8, 108u8, 111u8, 99u8, 107u8, 115u8], b.blocks as int, 0) + field_dec_spec(0x28, seq![109u8, 101u8, 116u8, 97u8, 95u8, 98u8, 108u8, 107u8, 97u8, 100u8, 100u8, 114u8], b.meta_blkaddr as int, 0) + field_dec_spec(0x2c, seq![120u8, 97u8, 116u8, 116u8, 114u8, 95u8, 98u8, 108u8, 107u8, 97u8, 100u8, 100u8, 114u8], b.xattr_blkaddr as int, 0) + field_bytes_spec(0x30, seq![117u8, 117u8, 105u8, 100u8], b.uuid@) + field_bytes_spec(0x40, seq![118u8, 111u8, 108u8, 117u8, 109u8, 101u8, 95u8, 110u8, 97u8, 109u8, 101u8], b.volume_name@)));
    }
    field_dec(out, 0x50, &[102, 101, 97, 116, 117, 114, 101, 95, 105, 110, 99, 111, 109, 112, 97, 116], b.feature_incompat as u64, 0);
    proof {
        vstd::seq_lib::lemma_concat_associative(o0, field_dec_spec(0x20, seq![98u8, 117u8, 105u8, 108u8, 100u8, 95u8, 116u8, 105u8, 109u8, 101u8, 95u8, 110u8, 115u8, 101u8, 99u8], b.build_time_nsec as int, 0) + field_dec_spec(0x24, seq![98u8, 108u8, 111u8, 99u8, 107u8, 115u8], b.blocks as int, 0) + field_dec_spec(0x28, seq![109u8, 101u8, 116u8, 97u8, 95u8, 98u8, 108u8, 107u8, 97u8, 100u8, 100u8, 114u8], b.meta_blkaddr as int, 0) + field_dec_spec(0x2c, seq![120u8, 97u8, 116u8, 116u8, 114u8, 95u8, 98u8, 108u8, 107u8, 97u8, 100u8, 100u8, 114u8], b.xattr_blkaddr as int, 0) + field_bytes_spec(0x30, seq![117u8, 117u8, 105u8, 100u8], b.uuid@) + field_bytes_spec(0x40, seq![118u8, 111u8, 108u8, 117u8, 109u8, 101u8, 95u8, 110u8, 97u8, 109u8, 101u8], b.volume_name@), field_dec_spec(0x50, seq![102u8, 101u8, 97u8, 116u8, 117u8, 114u8, 101u8, 95u8, 105u8, 110u8, 99u8, 111u8, 109u8, 112u8, 97u8, 116u8], b.feature_incompat as int, 0));
        assert(out@ == o0 + (field_dec_spec(0x20, seq![98u8, 117u8, 105u8, 108u8, 100u8, 95u8, 116u8, 105u8, 109u8, 101u8, 95u8, 110u8, 115u8, 101u8, 99u8], b.build_time_nsec as int, 0) + field_dec_spec(0x24, seq![98u8, 108u8, 111u8, 99u8, 107u8, 115u8], b.blocks as int, 0) + field_dec_spec(0x28, seq![109u8, 101u8, 116u8, 97u8, 95u8, 98u8, 108u8, 107u8, 97u8, 100u8, 100u8, 114u8], b.meta_blkaddr as int, 0) + field_dec_spec(0x2c, seq![120u8, 97u8, 116u8, 116u8, 114u8, 95u8, 98u8, 108u8, 107u8, 97u8, 100u8, 100u8, 114u8], b.xattr_blkaddr as int, 0) + field_bytes_spec(0x30, seq![117u8, 117u8, 105u8, 100u8], b.uuid@) + field_bytes_spec(0x40, seq![118u8, 111u8, 108u8, 117u8, 109u8, 101u8, 95u8, 110u8, 97u8, 109u8, 101u8], b.volume_name@) + field_dec_spec(0x50, seq![102u8, 101u8, 97u8, 116u8, 117u8, 114u8, 101u8, 95u8, 105u8, 110u8, 99u8, 111u8, 109u8, 112u8, 97u8, 116u8], b.feature_incompat as int, 0)));
    }
    field_dec(out, 0x54, &[97, 118, 97, 105, 108, 97, 98, 108, 101, 95, 99, 111, 109, 112, 114, 95, 97, 108, 103, 115], b.available_compr_algs as u64, 0);
    proof {
        vstd::seq_lib::lemma_concat_associative(o0, field_dec_spec(0x20, seq![98u8, 117u8, 105u8, 108u8, 100u8, 95u8, 116u8, 105u8, 109u8, 101u8, 95u8, 110u8, 115u8, 101u8, 99u8], b.build_time_nsec as int, 0) + field_dec_spec(0x24, seq![98u8, 108u8, 111u8, 99u8, 107u8, 115u8], b.blocks as int, 0) + field_dec_spec(0x28, seq![109u8, 101u8, 116u8, 97u8, 95u8, 98u8, 108u8, 107u8, 97u8, 100u8, 100u8, 114u8], b.meta_blkaddr as int, 0) + field_dec_spec(0x2c, seq![120u8, 97u8, 116u8, 116u8, 114u8, 95u8, 98u8, 108u8, 107u8, 97u8, 100u8, 100u8, 114u8], b.xattr_blkaddr as int, 0) + field_bytes_spec(0x30, seq![117u8, 117u8, 105u8, 100u8], b.uuid@) + field_bytes_spec(0x40, seq![118u8, 111u8, 108u8, 117u8, 109u8, 101u8, 95u8, 110u8, 97u8, 109u8, 101u8], b.volume_name@) + field_dec_spec(0x50, seq![102u8, 101u8, 97u8, 116u8, 117u8, 114u8, 101u8, 95u8, 105u8, 110u8, 99u8, 111u8, 109u8, 112u8, 97u8, 116u8], b.feature_incompat as int, 0), field_dec_spec(0x54, seq![97u8, 118u8, 97u8, 105u8, 108u8, 97u8, 98u8, 108u8, 101u8, 95u8, 99u8, 111u8, 109u8, 112u8, 114u8, 95u8, 97u8, 108u8, 103u8, 115u8], b.available_compr_algs as int, 0));
        assert(out@ == o0 + (field_dec_spec(0x20, seq![98u8, 117u8, 105u8, 108u8, 100u8, 95u8, 116u8, 105u8, 109u8, 101u8, 95u8, 110u8, 115u8, 101u8, 99u8], b.build_time_nsec as int, 0) + field_dec_spec(0x24, seq![98u8, 108u8, 111u8, 99u8, 107u8, 115u8], b.blocks as int, 0) + field_dec_spec(0x28, seq![109u8, 101u8, 116u8, 97u8, 95u8, 98u8, 108u8, 107u8, 97u8, 100u8, 100u8, 114u8], b.meta_blkaddr as int, 0) + field_dec_spec(0x2c, seq![120u8, 97u8, 116u8, 116u8, 114u8, 95u8, 98u8, 108u8, 107u8, 97u8, 100u8, 100u8, 114u8], b.xattr_blkaddr as int, 0) + field_bytes_spec(0x30, seq![117u8, 117u8, 105u8, 100u8], b.uuid@) + field_bytes_spec(0x40, seq![118u8, 111u8, 108u8, 117u8, 109u8, 101u8, 95u8, 110u8, 97u8, 109u8, 101u8], b.volume_name@) + field_dec_spec(0x50, seq![102u8, 101u8, 97u8, 116u8, 117u8, 114u8, 101u8, 95u8, 105u8, 110u8, 99u8, 111u8, 109u8, 112u8, 97u8, 116u8], b.feature_incompat as int, 0) + field_dec_spec(0x54, seq![97u8, 118u8, 97u8, 105u8, 108u8, 97u8, 98u8, 108u8, 101u8, 95u8, 99u8, 111u8, 109u8, 112u8, 114u8, 95u8, 97u8, 108u8, 103u8, 115u8], b.available_compr_algs as int, 0)));
    }
    proof {
        assert(final(out)@ == o0 + superblock_fields_b(*b));
    }
}

fn render_superblock_c(out: &mut Vec<u8>, b: &Superblock)
    ensures
        final(out)@ == old(out)@ + superblock_fields_c(*b),
{
    let ghost o0 = out@;
    field_dec(out, 0x56, &[101, 120, 116, 114, 97, 95, 100, 101, 118, 105, 99, 101, 115], b.extra_devices as u64, 0);
    proof {
        assert(out@ == o0 + field_dec_spec(0x56, seq![101u8, 120u8, 116u8, 114u8, 97u8, 95u8, 100u8, 101u8, 118u8, 105u8, 99u8, 101u8, 115u8], b.extra_devices as int, 0));
    }
    field_dec(out, 0x58, &[100, 101, 118, 116, 95, 115, 108, 111, 116, 111, 102, 102], b.devt_slotoff as u64, 0);
    proof {
        vstd::seq_lib::lemma_concat_associative(o0, field_dec_spec(0x56, seq![101u8, 120u8, 116u8, 114u8, 97u8, 95u8, 100u8, 101u8, 118u8, 105u8, 99u8, 101u8, 115u8], b.extra_devices as int, 0), field_dec_spec(0x58, seq![100u8, 101u8, 118u8, 116u8, 95u8, 115u8, 108u8, 111u8, 116u8, 111u8, 102u8, 102u8], b.devt_slotoff as int, 0));
        assert(out@ == o0 + (field_dec_spec(0x56, seq![101u8, 120u8, 116u8, 114u8, 97u8, 95u8, 100u8, 101u8, 118u8, 105u8, 99u8, 101u8, 115u8], b.extra_devices as int, 0) + field_dec_spec(0x58, seq![100u8, 101u8, 118u8, 116u8, 95u8, 115u8, 108u8, 111u8, 116u8, 111u8, 102u8, 102u8], b.devt_slotoff as int, 0)));
    }
    field_dec(out, 0x5a, &[100, 105, 114, 98, 108, 107, 98, 105, 116, 115], b.dirblkbits as u64, 0);
    proof {
        vstd::seq_lib::lemma_concat_associative(o0, field_dec_spec(0x56, seq![101u8, 120u8, 116u8, 114u8, 97u8, 95u8, 100u8, 101u8, 118u8, 105u8, 99u8, 101u8, 115u8], b.extra_devices as int, 0) + field_dec_spec(0x58, seq![100u8, 101u8, 118u8, 116u8, 95u8, 115u8, 108u8, 111u8, 116u8, 111u8, 102u8, 102u8], b.devt_slotoff as int, 0), field_dec_spec(0x5a, seq![100u8, 105u8, 114u8, 98u8, 108u8, 107u8, 98u8, 105u8, 116u8, 115u8], b.dirblkbits as int, 0));
        assert(out@ == o0 + (field_dec_spec(0x56, seq![101u8, 120u8, 116u8, 114u8, 97u8, 95u8, 100u8, 101u8, 118u8, 105u8, 99u8, 101u8, 115u8], b.extra_devices as int, 0) + field_dec_spec(0x58, seq![100u8, 101u8, 118u8, 116u8, 95u8, 115u8, 108u8, 111u8, 116u8, 111u8, 102u8, 102u8], b.devt_slotoff as int, 0) + field_dec_spec(0x5a, seq![100u8, 105u8, 114u8, 98u8, 108u8, 107u8, 98u8, 105u8, 116u8, 115u8], b.dirblkbits as int, 0)));
    }
    field_dec(out, 0x5b, &[120, 97, 116, 116, 114, 95, 112, 114, 101, 102, 105, 120, 95, 99, 111, 117, 110, 116], b.xattr_prefix_count as u64, 0);
    proof {
        vstd::seq_lib::lemma_concat_associative(o0, field_dec_spec(0x56, seq![101u8, 120u8, 116u8, 114u8, 97u8, 95u8, 100u8, 101u8, 118u8, 105u8, 99u8, 101u8, 115u8], b.extra_devices as int, 0) + field_dec_spec(0x58, seq![100u8, 101u8, 118u8, 116u8, 95u8, 115u8, 108u8, 111u8, 116u8, 111u8, 102u8, 102u8], b.devt_slotoff as int, 0) + field_dec_spec(0x5a, seq![100u8, 105u8, 114u8, 98u8, 108u8, 107u8, 98u8, 105u8, 116u8, 115u8], b.dirblkbits as int, 0), field_dec_spec(0x5b, seq![120u8, 97u8, 116u8, 116u8, 114u8, 95u8, 112u8, 114u8, 101u8, 102u8, 105u8, 120u8, 95u8, 99u8, 111u8, 117u8, 110u8, 116u8], b.xattr_prefix_count as int, 0));
        assert(out@ == o0 + (field_dec_spec(0x56, seq![101u8, 120u8, 116u8, 114u8, 97u8, 95u8, 100u8, 101u8, 118u8, 105u8, 99u8, 101u8, 115u8], b.extra_devices as int, 0) + field_dec_spec(0x58, seq![100u8, 101u8, 118u8, 116u8, 95u8, 115u8, 108u8, 111u8, 116u8, 111u8, 102u8, 102u8], b.devt_slotoff as int, 0) + field_dec_spec(0x5a, seq![100u8, 105u8, 114u8, 98u8, 108u8, 107u8, 98u8, 105u8, 116u8, 115u8], b.dirblkbits as int, 0) + field_dec_spec(0x5b, seq![120u8, 97u8, 116u8, 116u8, 114u8, 95u8, 112u8, 114u8, 101u8, 102u8, 105u8, 120u8, 95u8, 99u8, 111u8, 117u8, 110u8, 116u8], b.xattr_prefix_count as int, 0)));
    }
    field_dec(out, 0x5c, &[120, 97, 116, 116, 114, 95, 112, 114, 101, 102, 105, 120, 95, 115, 116, 97, 114, 116], b.xattr_prefix_start as u64, 0);
    proof {
        vstd::seq_lib::lemma_concat_associative(o0, field_dec_spec(0x56, seq![101u8, 120u8, 116u8, 114u8, 97u8, 95u8, 100u8, 101u8, 118u8, 105u8, 99u8, 101u8, 115u8], b.extra_devices as int, 0) + field_dec_spec(0x58, seq![100u8, 101u8, 118u8, 116u8, 95u8, 115u8, 108u8, 111u8, 116u8, 111u8, 102u8, 102u8], b.devt_slotoff as int, 0) + field_dec_spec(0x5a, seq![100u8, 105u8, 114u8, 98u8, 108u8, 107u8, 98u8, 105u8, 116u8, 115u8], b.dirblkbits as int, 0) + field_dec_spec(0x5b, seq![120u8, 97u8, 116u8, 116u8, 114u8, 95u8, 112u8, 114u8, 101u8, 102u8, 105u8, 120u8, 95u8, 99u8, 111u8, 117u8, 110u8, 116u8], b.xattr_prefix_count as int, 0), field_dec_spec(0x5c, seq![120u8, 97u8, 116u8, 116u8, 114u8, 95u8, 112u8, 114u8, 101u8, 102u8, 105u8, 120u8, 95u8, 115u8, 116u8, 97u8, 114u8, 116u8], b.xattr_prefix_start as int, 0));
        assert(out@ == o0 + (field_dec_spec(0x56, seq![101u8, 120u8, 116u8, 114u8, 97u8, 95u8, 100u8, 101u8, 118u8, 105u8, 99u8, 101u8, 115u8], b.extra_devices as int, 0) + field_dec_spec(0x58, seq![100u8, 101u8, 118u8, 116u8, 95u8, 115u8, 108u8, 111u8, 116u8, 111u8, 102u8, 102u8], b.devt_slotoff as int, 0) + field_dec_spec(0x5a, seq![100u8, 105u8, 114u8, 98u8, 108u8, 107u8, 98u8, 105u8, 116u8, 115u8], b.dirblkbits as int, 0) + field_dec_spec(0x5b, seq![120u8, 97u8, 116u8, 116u8, 114u8, 95u8, 112u8, 114u8, 101u8, 102u8, 105u8, 120u8, 95u8, 99u8, 111u8, 117u8, 110u8, 116u8], b.xattr_prefix_count as int, 0) + field_dec_spec(0x5c, seq![120u8, 97u8, 116u8, 116u8, 114u8, 95u8, 112u8, 114u8, 101u8, 102u8, 105u8, 120u8, 95u8, 115u8, 116u8, 97u8, 114u8, 116u8], b.xattr_prefix_start as int, 0)));
    }
    field_dec(out, 0x60, &[112, 97, 99, 107, 101, 100, 95, 110, 105, 100], b.packed_nid, 0);
    proof {
        vstd::seq_lib::lemma_concat_associative(o0, field_dec_spec(0x56, seq![101u8, 120u8, 116u8, 114u8, 97u8, 95u8, 100u8, 101u8, 118u8, 105u8, 99u8, 101u8, 115u8], b.extra_devices as int, 0) + field_dec_spec(0x58, seq![100u8, 101u8, 118u8, 116u8, 95u8, 115u8, 108u8, 111u8, 116u8, 111u8, 102u8, 102u8], b.devt_slotoff as int, 0) + field_dec_spec(0x5a, seq![100u8, 105u8, 114u8, 98u8, 108u8, 107u8, 98u8, 105u8, 116u8, 115u8], b.dirblkbits as int, 0) + field_dec_spec(0x5b, seq![120u8, 97u8, 116u8, 116u8, 114u8, 95u8, 112u8, 114u8, 101u8, 102u8, 105u8, 120u8, 95u8, 99u8, 111u8, 117u8, 110u8, 116u8], b.xattr_prefix_count as int, 0) + field_dec_spec(0x5c, seq![120u8, 97u8, 116u8, 116u8, 114u8, 95u8, 112u8, 114u8, 101u8, 102u8, 105u8, 120u8, 95u8, 115u8, 116u8, 97u8, 114u8, 116u8], b.xattr_prefix_start as int, 0), field_dec_spec(0x60, seq![112u8, 97u8, 99u8, 107u8, 101u8, 100u8, 95u8, 110u8, 105u8, 100u8], b.packed_nid as int, 0));
        assert(out@ == o0 + (field_dec_spec(0x56, seq![101u8, 120u8, 116u8, 114u8, 97u8, 95u8, 100u8, 101u8, 118u8, 105u8, 99u8, 101u8, 115u8], b.extra_devices as int, 0) + field_dec_spec(0x58, seq![100u8, 101u8, 118u8, 116u8, 95u8, 115u8, 108u8, 111u8, 116u8, 111u8, 102u8, 102u8], b.devt_slotoff as int, 0) + field_dec_spec(0x5a, seq![100u8, 105u8, 114u8, 98u8, 108u8, 107u8, 98u8, 105u8, 116u8, 115u8], b.dirblkbits as int, 0) + field_dec_spec(0x5b, seq![120u8, 97u8, 116u8, 116u8, 114u8, 95u8, 112u8, 114u8, 101u8, 102u8, 105u8, 120u8, 95u8, 99u8, 111u8, 117u8, 110u8, 116u8], b.xattr_prefix_count as int, 0) + field_dec_spec(0x5c, seq![120u8, 97u8, 116u8, 116u8, 114u8, 95u8, 112u8, 114u8, 101u8, 102u8, 105u8, 120u8, 95u8, 115u8, 116u8, 97u8, 114u8, 116u8], b.xattr_prefix_start as int, 0) + field_dec_spec(0x60, seq![112u8, 97u8, 99u8, 107u8, 101u8, 100u8, 95u8, 110u8, 105u8, 100u8], b.packed_nid as int, 0)));
    }
    field_dec(out, 0x68, &[120, 97, 116, 116, 114, 95, 102, 105, 108, 116, 101, 114, 95, 114, 101, 115, 101, 114, 118, 101, 100], b.xattr_filter_reserved as u64, 0);
    proof {
        vstd::seq_lib::lemma_concat_associative(o0, field_dec_spec(0x56, seq![101u8, 120u8, 116u8, 114u8, 97u8, 95u8, 100u8, 101u8, 118u8, 105u8, 99u8, 101u8, 115u8], b.extra_devices as int, 0) + field_dec_spec(0x58, seq![100u8, 101u8, 118u8, 116u8, 95u8, 115u8, 108u8, 111u8, 116u8, 111u8, 102u8, 102u8], b.devt_slotoff as int, 0) + field_dec_spec(0x5a, seq![100u8, 105u8, 114u8, 98u8, 108u8, 107u8, 98u8, 105u8, 116u8, 115u8], b.dirblkbits as int, 0) + field_dec_spec(0x5b, seq![120u8, 97u8, 116u8, 116u8, 114u8, 95u8, 112u8, 114u8, 101u8, 102u8, 105u8, 120u8, 95u8, 99u8, 111u8, 117u8, 110u8, 116u8], b.xattr_prefix_count as int, 0) + field_dec_spec(0x5c, seq![120u8, 97u8, 116u8, 116u8, 114u8, 95u8, 112u8, 114u8, 101u8, 102u8, 105u8, 120u8, 95u8, 115u8, 116u8, 97u8, 114u8, 116u8], b.xattr_prefix_start as int, 0) + field_dec_spec(0x60, seq![112u8, 97u8, 99u8, 107u8, 101u8, 100u8, 95u8, 110u8, 105u8, 100u8], b.packed_nid as int, 0), field_dec_spec(0x68, seq![120u8, 97u8, 116u8, 116u8, 114u8, 95u8, 102u8, 105u8, 108u8, 116u8, 101u8, 114u8, 95u8, 114u8, 101u8, 115u8, 101u8, 114u8, 118u8, 101u8, 100u8], b.xattr_filter_reserved as int, 0));
        assert(out@ == o0 + (field_dec_spec(0x56, seq![101u8, 120u8, 116u8, 114u8, 97u8, 95u8, 100u8, 101u8, 118u8, 105u8, 99u8, 101u8, 115u8], b.extra_devices as int, 0) + field_dec_spec(0x58, seq![100u8, 101u8, 118u8, 116u8, 95u8, 115u8, 108u8, 111u8, 116u8, 111u8, 102u8, 102u8], b.devt_slotoff as int, 0) + field_dec_spec(0x5a, seq![100u8, 105u8, 114u8, 98u8, 108u8, 107u8, 98u8, 105u8, 116u8, 115u8], b.dirblkbits as int, 0) + field_dec_spec(0x5b, seq![120u8, 97u8, 116u8, 116u8, 114u8, 95u8, 112u8, 114u8, 101u8, 102u8, 105u8, 120u8, 95u8, 99u8, 111u8, 117u8, 110u8, 116u8], b.xattr_prefix_count as int, 0) + field_dec_spec(0x5c, seq![120u8, 97u8, 116u8, 116u8, 114u8, 95u8, 112u8, 114u8, 101u8, 102u8, 105u8, 120u8, 95u8, 115u8, 116u8, 97u8, 114u8, 116u8], b.xattr_prefix_start as int, 0) + field_dec_spec(0x60, seq![112u8, 97u8, 99u8, 107u8, 101u8, 100u8, 95u8, 110u8, 105u8, 100u8], b.packed_nid as int, 0) + field_dec_spec(0x68, seq![120u8, 97u8, 116u8, 116u8, 114u8, 95u8, 102u8, 105u8, 108u8, 116u8, 101u8, 114u8, 95u8, 114u8, 101u8, 115u8, 101u8, 114u8, 118u8, 101u8, 100u8], b.xattr_filter_reserved as int, 0)));
    }
    field_bytes(out, 0x69, &[114, 101, 115, 101, 114, 118, 101, 100, 50], b.reserved2.as_slice());
    proof {
        vstd::seq_lib::lemma_concat_associative(o0, field_dec_spec(0x56, seq![101u8, 120u8, 116u8, 114u8, 97u8, 95u8, 100u8, 101u8, 118u8, 105u8, 99u8, 101u8, 115u8], b.extra_devices as int, 0) + field_dec_spec(0x58, seq![100u8, 101u8, 118u8, 116u8, 95u8, 115u8, 108u8, 111u8, 116u8, 111u8, 102u8, 102u8], b.devt_slotoff as int, 0) + field_dec_spec(0x5a, seq![100u8, 105u8, 114u8, 98u8, 108u8, 107u8, 98u8, 105u8, 116u8, 115u8], b.dirblkbits as int, 0) + field_dec_spec(0x5b, seq![120u8, 97u8, 116u8, 116u8, 114u8, 95u8, 112u8, 114u8, 101u8, 102u8, 105u8, 120u8, 95u8, 99u8, 111u8, 117u8, 110u8, 116u8], b.xattr_prefix_count as int, 0) + field_dec_spec(0x5c, seq![120u8, 97u8, 116u8, 116u8, 114u8, 95u8, 112u8, 114u8, 101u8, 102u8, 105u8, 120u8, 95u8, 115u8, 116u8, 97u8, 114u8, 116u8], b.xattr_prefix_start as int, 0) + field_dec_spec(0x60, seq![112u8, 97u8, 99u8, 107u8, 101u8, 100u8, 95u8, 110u8, 105u8, 100u8], b.packed_nid as int, 0) + field_dec_spec(0x68, seq![120u8, 97u8, 116u8, 116u8, 114u8, 95u8, 102u8, 105u8, 108u8, 116u8, 101u8, 114u8, 95u8, 114u8, 101u8, 115u8, 101u8, 114u8, 118u8, 101u8, 100u8], b.xattr_filter_reserved as int, 0), field_bytes_spec(0x69, seq![114u8, 101u8, 115u8, 101u8, 114u8, 118u8, 101u8, 100u8, 50u8], b.reserved2@));
        assert(out@ == o0 + (field_dec_spec(0x56, seq![101u8, 120u8, 116u8, 114u8, 97u8, 95u8, 100u8, 101u8, 118u8, 105u8, 99u8, 101u8, 115u8], b.extra_devices as int, 0) + field_dec_spec(0x58, seq![100u8, 101u8, 118u8, 116u8, 95u8, 115u8, 108u8, 111u8, 116u8, 111u8, 102u8, 102u8], b.devt_slotoff as int, 0) + field_dec_spec(0x5a, seq![100u8, 105u8, 114u8, 98u8, 108u8, 107u8, 98u8, 105u8, 116u8, 115u8], b.dirblkbits as int, 0) + field_dec_spec(0x5b, seq![120u8, 97u8, 116u8, 116u8, 114u8, 95u8, 112u8, 114u8, 101u8, 102u8, 105u8, 120u8, 95u8, 99u8, 111u8, 117u8, 110u8, 116u8], b.xattr_prefix_count as int, 0) + field_dec_spec(0x5c, seq![120u8, 97u8, 116u8, 116u8, 114u8, 95u8, 112u8, 114u8, 101u8, 102u8, 105u8, 120u8, 95u8, 115u8, 116u8, 97u8, 114u8, 116u8], b.xattr_prefix_start as int, 0) + field_dec_spec(0x60, seq![112u8, 97u8, 99u8, 107u8, 101u8, 100u8, 95u8, 110u8, 105u8, 100u8], b.packed_nid as int, 0) + field_dec_spec(0x68, seq![120u8, 97u8, 116u8, 116u8, 114u8, 95u8, 102u8, 105u8, 108u8, 116u8, 101u8, 114u8, 95u8, 114u8, 101u8, 115u8, 101u8, 114u8, 118u8, 101u8, 100u8], b.xattr_filter_reserved as int, 0) + field_bytes_spec(0x69, seq![114u8, 101u8, 115u8, 101u8, 114u8, 118u8, 101u8, 100u8, 50u8], b.reserved2@)));
    }
    proof {
        assert(final(out)@ == o0 + superblock_fields_c(*b));
    }
}

/// Append the field lines of the superblock.
pub fn render_superblock(out: &mut Vec<u8>, b: &Superblock)
    ensures
        final(out)@ == old(out)@ + superblock_fields_spec(*b),
{
    render_superblock_a(out, b);
    render_superblock_b(out, b);
    render_superblock_c(out, b);
    proof {
        assert(final(out)@ =~= old(out)@ + superblock_fields_spec(*b));
    }
}

/// The first half of a compact inode header's field lines.
pub open spec fn compact_fields_a(h: CompactInodeHeader) -> Seq<u8> {
    field_format_spec(h.format.0) + field_dec_spec(
        0x02,
        seq![120u8, 97u8, 116u8, 116u8, 114u8, 95u8, 105u8, 99u8, 111u8, 117u8, 110u8, 116u8],
        h.xattr_icount as int,
        0,
    ) + field_dec_spec(0x04, seq![109u8, 111u8, 100u8, 101u8], h.mode as int, 0) + field_dec_spec(
        0x0c,
        seq![114u8, 101u8, 115u8, 101u8, 114u8, 118u8, 101u8, 100u8],
        h.reserved as int,
        0,
    ) + field_dec_spec(0x08, seq![115u8, 105u8, 122u8, 101u8], h.size as int, 0) + field_dec_spec(
        0x10,
        seq![117u8],
        h.u as int,
        0,
    )
}

/// The second half of a compact inode header's field lines.
pub open spec fn compact_fields_b(h: CompactInodeHeader) -> Seq<u8> {
    field_dec_spec(0x14, seq![105u8, 110u8, 111u8], h.ino as int, 0) + field_dec_spec(
        0x18,
        seq![117u8, 105u8, 100u8],
        h.uid as int,
        0,
    ) + field_dec_spec(0x1a, seq![103u8, 105u8, 100u8], h.gid as int, 0) + field_dec_spec(
        0x06,
        seq![110u8, 108u8, 105u8, 110u8, 107u8],
        h.nlink as int,
        0,
    ) + field_bytes_spec(0x1c, seq![114u8, 101u8, 115u8, 101u8, 114u8, 118u8, 101u8, 100u8, 50u8], h.reserved2@)
}

/// The field lines of a compact inode header.
pub open spec fn compact_fields_spec(h: CompactInodeHeader) -> Seq<u8> {
    compact_fields_a(h) + compact_fields_b(h)
}

fn render_compact_a(out: &mut Vec<u8>, h: &CompactInodeHeader)
    ensures
        final(out)@ == old(out)@ + compact_fields_a(*h),
{
    let ghost o0 = out@;
    field_format(out, h.format.0);
    proof {
        assert(out@ == o0 + field_format_spec(h.format.0));
    }
    field_dec(out, 0x02, &[120, 97, 116, 116, 114, 95, 105, 99, 111, 117, 110, 116], h.xattr_icount as u64, 0);
    proof {
        vstd::seq_lib::lemma_concat_associative(o0, field_format_spec(h.format.0), field_dec_spec(0x02, seq![120u8, 97u8, 116u8, 116u8, 114u8, 95u8, 105u8, 99u8, 111u8, 117u8, 110u8, 116u8], h.xattr_icount as int, 0));
        assert(out@ == o0 + (field_format_spec(h.format.0) + field_dec_spec(0x02, seq![120u8, 97u8, 116u8, 116u8, 114u8, 95u8, 105u8, 99u8, 111u8, 117u8, 110u8, 116u8], h.xattr_icount as int, 0)));
    }
    field_dec(out, 0x04, &[109, 111, 100, 101], h.mode as u64, 0);
    proof {
        vstd::seq_lib::lemma_concat_associative(o0, field_format_spec(h.format.0) + field_dec_spec(0x02, seq![120u8, 97u8, 116u8, 116u8, 114u8, 95u8, 105u8, 99u8, 111u8, 117u8, 110u8, 116u8], h.xattr_icount as int, 0), field_dec_spec(0x04, seq![109u8, 111u8, 100u8, 101u8], h.mode as int, 0));
        assert(out@ == o0 + (field_format_spec(h.format.0) + field_dec_spec(0x02, seq![120u8, 97u8, 116u8, 116u8, 114u8, 95u8, 105u8, 99u8, 111u8, 117u8, 110u8, 116u8], h.xattr_icount as int, 0) + field_dec_spec(0x04, seq![109u8, 111u8, 100u8, 101u8], h.mode as int, 0)));
    }
    field_dec(out, 0x0c, &[114, 101, 115, 101, 114, 118, 101, 100], h.reserved as u64, 0);
    proof {
        vstd::seq_lib::lemma_concat_associative(o0, field_format_spec(h.format.0) + field_dec_spec(0x02, seq![120u8, 97u8, 116u8, 116u8, 114u8, 95u8, 105u8, 99u8, 111u8, 117u8, 110u8, 116u8], h.xattr_icount as int, 0) + field_dec_spec(0x04, seq![109u8, 111u8, 100u8, 101u8], h.mode as int, 0), field_dec_spec(0x0c, seq![114u8, 101u8, 115u8, 101u8, 114u8, 118u8, 101u8, 100u8], h.reserved as int, 0));
        assert(out@ == o0 + (field_format_spec(h.format.0) + field_dec_spec(0x02, seq![120u8, 97u8, 116u8, 116u8, 114u8, 95u8, 105u8, 99u8, 111u8, 117u8, 110u8, 116u8], h.xattr_icount as int, 0) + field_dec_spec(0x04, seq![109u8, 111u8, 100u8, 101u8], h.mode as int, 0) + field_dec_spec(0x0c, seq![114u8, 101u8, 115u8, 101u8, 114u8, 118u8, 101u8, 100u8], h.reserved as int, 0)));
    }
    field_dec(out, 0x08, &[115, 105, 122, 101], h.size as u64, 0);
    proof {
        vstd::seq_lib::lemma_concat_associative(o0, field_format_spec(h.format.0) + field_dec_spec(0x02, seq![120u8, 97u8, 116u8, 116u8, 114u8, 95u8, 105u8, 99u8, 111u8, 117u8, 110u8, 116u8], h.xattr_icount as int, 0) + field_dec_spec(0x04, seq![109u8, 111u8, 100u8, 101u8], h.mode as int, 0) + field_dec_spec(0x0c, seq![114u8, 101u8, 115u8, 101u8, 114u8, 118u8, 101u8, 100u8], h.reserved as int, 0), field_dec_spec(0x08, seq![115u8, 105u8, 122u8, 101u8], h.size as int, 0));
        assert(out@ == o0 + (field_format_spec(h.format.0) + field_dec_spec(0x02, seq![120u8, 97u8, 116u8, 116u8, 114u8, 95u8, 105u8, 99u8, 111u8, 117u8, 110u8, 116u8], h.xattr_icount as int, 0) + field_dec_spec(0x04, seq![109u8, 111u8, 100u8, 101u8], h.mode as int, 0) + field_dec_spec(0x0c, seq![114u8, 101u8, 115u8, 101u8, 114u8, 118u8, 101u8, 100u8], h.reserved as int, 0) + field_dec_spec(0x08, seq![115u8, 105u8, 122u8, 101u8], h.size as int, 0)));
    }
    field_dec(out, 0x10, &[117], h.u as u64, 0);
    proof {
        vstd::seq_lib::lemma_concat_associative(o0, field_format_spec(h.format.0) + field_dec_spec(0x02, seq![120u8, 97u8, 116u8, 116u8, 114u8, 95u8, 105u8, 99u8, 111u8, 117u8, 110u8, 116u8], h.xattr_icount as int, 0) + field_dec_spec(0x04, seq![109u8, 111u8, 100u8, 101u8], h.mode as int, 0) + field_dec_spec(0x0c, seq![114u8, 101u8, 115u8, 101u8, 114u8, 118u8, 101u8, 100u8], h.reserved as int, 0) + field_dec_spec(0x08, seq![115u8, 105u8, 122u8, 101u8], h.size as int, 0), field_dec_spec(0x10, seq![117u8], h.u as int, 0));
        assert(out@ == o0 + (field_format_spec(h.format.0) + field_dec_spec(0x02, seq![120u8, 97u8, 116u8, 116u8, 114u8, 95u8, 105u8, 99u8, 111u8, 117u8, 110u8, 116u8], h.xattr_icount as int, 0) + field_dec_spec(0x04, seq![109u8, 111u8, 100u8, 101u8], h.mode as int, 0) + field_dec_spec(0x0c, seq![114u8, 101u8, 115u8, 101u8, 114u8, 118u8, 101u8, 100u8], h.reserved as int, 0) + field_dec_spec(0x08, seq![115u8, 105u8, 122u8, 101u8], h.size as int, 0) + field_dec_spec(0x10, seq![117u8], h.u as int, 0)));
    }
    proof {
        assert(final(out)@ == o0 + compact_fields_a(*h));
    }
}

fn render_compact_b(out: &mut Vec<u8>, h: &CompactInodeHeader)
    ensures
        final(out)@ == old(out)@ + compact_fields_b(*h),
{
    let ghost o0 = out@;
    field_dec(out, 0x14, &[105, 110, 111], h.ino as u64, 0);
    proof {
        assert(out@ == o0 + field_dec_spec(0x14, seq![105u8, 110u8, 111u8], h.ino as int, 0));
    }
    field_dec(out, 0x18, &[117, 105, 100], h.uid as u64, 0);
    proof {
        vstd::seq_lib::lemma_concat_associative(o0, field_dec_spec(0x14, seq![105u8, 110u8, 111u8], h.ino as int, 0), field_dec_spec(0x18, seq![117u8, 105u8, 100u8], h.uid as int, 0));
        assert(out@ == o0 + (field_dec_spec(0x14, seq![105u8, 110u8, 111u8], h.ino as int, 0) + field_dec_spec(0x18, seq![117u8, 105u8, 100u8], h.uid as int, 0)));
    }
    field_dec(out, 0x1a, &[103, 105, 100], h.gid as u64, 0);
    proof {
        vstd::seq_lib::lemma_concat_associative(o0, field_dec_spec(0x14, seq![105u8, 110u8, 111u8], h.ino as int, 0) + field_dec_spec(0x18, seq![117u8, 105u8, 100u8], h.uid as int, 0), field_dec_spec(0x1a, seq![103u8, 105u8, 100u8], h.gid as int, 0));
        assert(out@ == o0 + (field_dec_spec(0x14, seq![105u8, 110u8, 111u8], h.ino as int, 0) + field_dec_spec(0x18, seq![117u8, 105u8, 100u8], h.uid as int, 0) + field_dec_spec(0x1a, seq![103u8, 105u8, 100u8], h.gid as int, 0)));
    }
    field_dec(out, 0x06, &[110, 108, 105, 110, 107], h.nlink as u64, 0);
    proof {
        vstd::seq_lib::lemma_concat_associative(o0, field_dec_spec(0x14, seq![105u8, 110u8, 111u8], h.ino as int, 0) + field_dec_spec(0x18, seq![117u8, 105u8, 100u8], h.uid as int, 0) + field_dec_spec(0x1a, seq![103u8, 105u8, 100u8], h.gid as int, 0), field_dec_spec(0x06, seq![110u8, 108u8, 105u8, 110u8, 107u8], h.nlink as int, 0));
        assert(out@ == o0 + (field_dec_spec(0x14, seq![105u8, 110u8, 111u8], h.ino as int, 0) + field_dec_spec(0x18, seq![117u8, 105u8, 100u8], h.uid as int, 0) + field_dec_spec(0x1a, seq![103u8, 105u8, 100u8], h.gid as int, 0) + field_dec_spec(0x06, seq![110u8, 108u8, 105u8, 110u8, 107u8], h.nlink as int, 0)));
    }
    field_bytes(out, 0x1c, &[114, 101, 115, 101, 114, 118, 101, 100, 50], h.reserved2.as_slice());
    proof {
        vstd::seq_lib::lemma_concat_associative(o0, field_dec_spec(0x14, seq![105u8, 110u8, 111u8], h.ino as int, 0) + field_dec_spec(0x18, seq![117u8, 105u8, 100u8], h.uid as int, 0) + field_dec_spec(0x1a, seq![103u8, 105u8, 100u8], h.gid as int, 0) + field_dec_spec(0x06, seq![110u8, 108u8, 105u8, 110u8, 107u8], h.nlink as int, 0), field_bytes_spec(0x1c, seq![114u8, 101u8, 115u8, 101u8, 114u8, 118u8, 101u8, 100u8, 50u8], h.reserved2@));
        assert(out@ == o0 + (field_dec_spec(0x14, seq![105u8, 110u8, 111u8], h.ino as int, 0) + field_dec_spec(0x18, seq![117u8, 105u8, 100u8], h.uid as int, 0) + field_dec_spec(0x1a, seq![103u8, 105u8, 100u8], h.gid as int, 0) + field_dec_spec(0x06, seq![110u8, 108u8, 105u8, 110u8, 107u8], h.nlink as int, 0) + field_bytes_spec(0x1c, seq![114u8, 101u8, 115u8, 101u8, 114u8, 118u8, 101u8, 100u8, 50u8], h.reserved2@)));
    }
    proof {
        assert(final(out)@ == o0 + compact_fields_b(*h));
    }
}

/// Append the field lines of a compact inode header.
pub fn render_compact_fields(out: &mut Vec<u8>, h: &CompactInodeHeader)
    ensures
        final(out)@ == old(out)@ + compact_fields_spec(*h),
{
    render_compact_a(out, h);
    render_compact_b(out, h);
    proof {
        assert(final(out)@ =~= old(out)@ + compact_fields_spec(*h));
    }
}

/// The first half of an extended inode header's field lines.
pub open spec fn extended_fields_a(h: ExtendedInodeHeader) -> Seq<u8> {
    field_format_spec(h.format.0) + field_dec_spec(
        0x02,
        seq![120u8, 97u8, 116u8, 116u8, 114u8, 95u8, 105u8, 99u8, 111u8, 117u8, 110u8, 116u8],
        h.xattr_icount as int,
        0,
    ) + field_dec_spec(0x04, seq![109u8, 111u8, 100u8, 101u8], h.mode as int, 0) + field_dec_spec(
        0x06,
        seq![114u8, 101u8, 115u8, 101u8, 114u8, 118u8, 101u8, 100u8],
        h.reserved as int,
        0,
    ) + field_dec_spec(0x08, seq![115u8, 105u8, 122u8, 101u8], h.size as int, 0) + field_dec_spec(
        0x10,
        seq![117u8],
        h.u as int,
        0,
    ) + field_dec_spec(0x14, seq![105u8, 110u8, 111u8], h.ino as int, 0)
}

/// The second half of an extended inode header's field lines.
pub open spec fn extended_fields_b(h: ExtendedInodeHeader) -> Seq<u8> {
    field_dec_spec(0x18, seq![117u8, 105u8, 100u8], h.uid as int, 0) + field_dec_spec(
        0x1c,
        seq![103u8, 105u8, 100u8],
        h.gid as int,
        0,
    ) + field_dec_spec(0x20, seq![109u8, 116u8, 105u8, 109u8, 101u8], h.mtime as int, 0) + field_dec_spec(
        0x28,
        seq![109u8, 116u8, 105u8, 109u8, 101u8, 95u8, 110u8, 115u8, 101u8, 99u8],
        h.mtime_nsec as int,
        0,
    ) + field_dec_spec(0x2c, seq![110u8, 108u8, 105u8, 110u8, 107u8], h.nlink as int, 0) + field_bytes_spec(
        0x30,
        seq![114u8, 101u8, 115u8, 101u8, 114u8, 118u8, 101u8, 100u8, 50u8],
        h.reserved2@,
    )
}

/// The field lines of an extended inode header.
pub open spec fn extended_fields_spec(h: ExtendedInodeHeader) -> Seq<u8> {
    extended_fields_a(h) + extended_fields_b(h)
}

fn render_extended_a(out: &mut Vec<u8>, h: &ExtendedInodeHeader)
    ensures
        final(out)@ == old(out)@ + extended_fields_a(*h),
{
    let ghost o0 = out@;
    field_format(out, h.format.0);
    proof {
        assert(out@ == o0 + field_format_spec(h.format.0));
    }
    field_dec(out, 0x02, &[120, 97, 116, 116, 114, 95, 105, 99, 111, 117, 110, 116], h.xattr_icount as u64, 0);
    proof {
        vstd::seq_lib::lemma_concat_associative(o0, field_format_spec(h.format.0), field_dec_spec(0x02, seq![120u8, 97u8, 116u8, 116u8, 114u8, 95u8, 105u8, 99u8, 111u8, 117u8, 110u8, 116u8], h.xattr_icount as int, 0));
        assert(out@ == o0 + (field_format_spec(h.format.0) + field_dec_spec(0x02, seq![120u8, 97u8, 116u8, 116u8, 114u8, 95u8, 105u8, 99u8, 111u8, 117u8, 110u8, 116u8], h.xattr_icount as int, 0)));
    }
    field_dec(out, 0x04, &[109, 111, 100, 101], h.mode as u64, 0);
    proof {
        vstd::seq_lib::lemma_concat_associative(o0, field_format_spec(h.format.0) + field_dec_spec(0x02, seq![120u8, 97u8, 116u8, 116u8, 114u8, 95u8, 105u8, 99u8, 111u8, 117u8, 110u8, 116u8], h.xattr_icount as int, 0), field_dec_spec(0x04, seq![109u8, 111u8, 100u8, 101u8], h.mode as int, 0));
        assert(out@ == o0 + (field_format_spec(h.format.0) + field_dec_spec(0x02, seq![120u8, 97u8, 116u8, 116u8, 114u8, 95u8, 105u8, 99u8, 111u8, 117u8, 110u8, 116u8], h.xattr_icount as int, 0) + field_dec_spec(0x04, seq![109u8, 111u8, 100u8, 101u8], h.mode as int, 0)));
    }
    field_dec(out, 0x06, &[114, 101, 115, 101, 114, 118, 101, 100], h.reserved as u64, 0);
    proof {
        vstd::seq_lib::lemma_concat_associative(o0, field_format_spec(h.format.0) + field_dec_spec(0x02, seq![120u8, 97u8, 116u8, 116u8, 114u8, 95u8, 105u8, 99u8, 111u8, 117u8, 110u8, 116u8], h.xattr_icount as int, 0) + field_dec_spec(0x04, seq![109u8, 111u8, 100u8, 101u8], h.mode as int, 0), field_dec_spec(0x06, seq![114u8, 101u8, 115u8, 101u8, 114u8, 118u8, 101u8, 100u8], h.reserved as int, 0));
        assert(out@ == o0 + (field_format_spec(h.format.0) + field_dec_spec(0x02, seq![120u8, 97u8, 116u8, 116u8, 114u8, 95u8, 105u8, 99u8, 111u8, 117u8, 110u8, 116u8], h.xattr_icount as int, 0) + field_dec_spec(0x04, seq![109u8, 111u8, 100u8, 101u8], h.mode as int, 0) + field_dec_spec(0x06, seq![114u8, 101u8, 115u8, 101u8, 114u8, 118u8, 101u8, 100u8], h.reserved as int, 0)));
    }
    field_dec(out, 0x08, &[115, 105, 122, 101], h.size, 0);
    proof {
        vstd::seq_lib::lemma_concat_associative(o0, field_format_spec(h.format.0) + field_dec_spec(0x02, seq![120u8, 97u8, 116u8, 116u8, 114u8, 95u8, 105u8, 99u8, 111u8, 117u8, 110u8, 116u8], h.xattr_icount as int, 0) + field_dec_spec(0x04, seq![109u8, 111u8, 100u8, 101u8], h.mode as int, 0) + field_dec_spec(0x06, seq![114u8, 101u8, 115u8, 101u8, 114u8, 118u8, 101u8, 100u8], h.reserved as int, 0), field_dec_spec(0x08, seq![115u8, 105u8, 122u8, 101u8], h.size as int, 0));
        assert(out@ == o0 + (field_format_spec(h.format.0) + field_dec_spec(0x02, seq![120u8, 97u8, 116u8, 116u8, 114u8, 95u8, 105u8, 99u8, 111u8, 117u8, 110u8, 116u8], h.xattr_icount as int, 0) + field_dec_spec(0x04, seq![109u8, 111u8, 100u8, 101u8], h.mode as int, 0) + field_dec_spec(0x06, seq![114u8, 101u8, 115u8, 101u8, 114u8, 118u8, 101u8, 100u8], h.reserved as int, 0) + field_dec_spec(0x08, seq![115u8, 105u8, 122u8, 101u8], h.size as int, 0)));
    }
    field_dec(out, 0x10, &[117], h.u as u64, 0);
    proof {
        vstd::seq_lib::lemma_concat_associative(o0, field_format_spec(h.format.0) + field_dec_spec(0x02, seq![120u8, 97u8, 116u8, 116u8, 114u8, 95u8, 105u8, 99u8, 111u8, 117u8, 110u8, 116u8], h.xattr_icount as int, 0) + field_dec_spec(0x04, seq![109u8, 111u8, 100u8, 101u8], h.mode as int, 0) + field_dec_spec(0x06, seq![114u8, 101u8, 115u8, 101u8, 114u8, 118u8, 101u8, 100u8], h.reserved as int, 0) + field_dec_spec(0x08, seq![115u8, 105u8, 122u8, 101u8], h.size as int, 0), field_dec_spec(0x10, seq![117u8], h.u as int, 0));
        assert(out@ == o0 + (field_format_spec(h.format.0) + field_dec_spec(0x02, seq![120u8, 97u8, 116u8, 116u8, 114u8, 95u8, 105u8, 99u8, 111u8, 117u8, 110u8, 116u8], h.xattr_icount as int, 0) + field_dec_spec(0x04, seq![109u8, 111u8, 100u8, 101u8], h.mode as int, 0) + field_dec_spec(0x06, seq![114u8, 101u8, 115u8, 101u8, 114u8, 118u8, 101u8, 100u8], h.reserved as int, 0) + field_dec_spec(0x08, seq![115u8, 105u8, 122u8, 101u8], h.size as int, 0) + field_dec_spec(0x10, seq![117u8], h.u as int, 0)));
    }
    field_dec(out, 0x14, &[105, 110, 111], h.ino as u64, 0);
    proof {
        vstd::seq_lib::lemma_concat_associative(o0, field_format_spec(h.format.0) + field_dec_spec(0x02, seq![120u8, 97u8, 116u8, 116u8, 114u8, 95u8, 105u8, 99u8, 111u8, 117u8, 110u8, 116u8], h.xattr_icount as int, 0) + field_dec_spec(0x04, seq![109u8, 111u8, 100u8, 101u8], h.mode as int, 0) + field_dec_spec(0x06, seq![114u8, 101u8, 115u8, 101u8, 114u8, 118u8, 101u8, 100u8], h.reserved as int, 0) + field_dec_spec(0x08, seq![115u8, 105u8, 122u8, 101u8], h.size as int, 0) + field_dec_spec(0x10, seq![117u8], h.u as int, 0), field_dec_spec(0x14, seq![105u8, 110u8, 111u8], h.ino as int, 0));
        assert(out@ == o0 + (field_format_spec(h.format.0) + field_dec_spec(0x02, seq![120u8, 97u8, 116u8, 116u8, 114u8, 95u8, 105u8, 99u8, 111u8, 117u8, 110u8, 116u8], h.xattr_icount as int, 0) + field_dec_spec(0x04, seq![109u8, 111u8, 100u8, 101u8], h.mode as int, 0) + field_dec_spec(0x06, seq![114u8, 101u8, 115u8, 101u8, 114u8, 118u8, 101u8, 100u8], h.reserved as int, 0) + field_dec_spec(0x08, seq![115u8, 105u8, 122u8, 101u8], h.size as int, 0) + field_dec_spec(0x10, seq![117u8], h.u as int, 0) + field_dec_spec(0x14, seq![105u8, 110u8, 111u8], h.ino as int, 0)));
    }
    proof {
        assert(final(out)@ == o0 + extended_fields_a(*h));
    }
}

fn render_extended_b(out: &mut Vec<u8>, h: &ExtendedInodeHeader)
    ensures
        final(out)@ == old(out)@ + extended_fields_b(*h),
{
    let ghost o0 = out@;
    field_dec(out, 0x18, &[117, 105, 100], h.uid as u64, 0);
    proof {
        assert(out@ == o0 + field_dec_spec(0x18, seq![117u8, 105u8, 100u8], h.uid as int, 0));
    }
    field_dec(out, 0x1c, &[103, 105, 100], h.gid as u64, 0);
    proof {
        vstd::seq_lib::lemma_concat_associative(o0, field_dec_spec(0x18, seq![117u8, 105u8, 100u8], h.uid as int, 0), field_dec_spec(0x1c, seq![103u8, 105u8, 100u8], h.gid as int, 0));
        assert(out@ == o0 + (field_dec_spec(0x18, seq![117u8, 105u8, 100u8], h.uid as int, 0) + field_dec_spec(0x1c, seq![103u8, 105u8, 100u8], h.gid as int, 0)));
    }
    field_dec(out, 0x20, &[109, 116, 105, 109, 101], h.mtime, 0);
    proof {
        vstd::seq_lib::lemma_concat_associative(o0, field_dec_spec(0x18, seq![117u8, 105u8, 100u8], h.uid as int, 0) + field_dec_spec(0x1c, seq![103u8, 105u8, 100u8], h.gid as int, 0), field_dec_spec(0x20, seq![109u8, 116u8, 105u8, 109u8, 101u8], h.mtime as int, 0));
        assert(out@ == o0 + (field_dec_spec(0x18, seq![117u8, 105u8, 100u8], h.uid as int, 0) + field_dec_spec(0x1c, seq![103u8, 105u8, 100u8], h.gid as int, 0) + field_dec_spec(0x20, seq![109u8, 116u8, 105u8, 109u8, 101u8], h.mtime as int, 0)));
    }
    field_dec(out, 0x28, &[109, 116, 105, 109, 101, 95, 110, 115, 101, 99], h.mtime_nsec as u64, 0);
    proof {
        vstd::seq_lib::lemma_concat_associative(o0, field_dec_spec(0x18, seq![117u8, 105u8, 100u8], h.uid as int, 0) + field_dec_spec(0x1c, seq![103u8, 105u8, 100u8], h.gid as int, 0) + field_dec_spec(0x20, seq![109u8, 116u8, 105u8, 109u8, 101u8], h.mtime as int, 0), field_dec_spec(0x28, seq![109u8, 116u8, 105u8, 109u8, 101u8, 95u8, 110u8, 115u8, 101u8, 99u8], h.mtime_nsec as int, 0));
        assert(out@ == o0 + (field_dec_spec(0x18, seq![117u8, 105u8, 100u8], h.uid as int, 0) + field_dec_spec(0x1c, seq![103u8, 105u8, 100u8], h.gid as int, 0) + field_dec_spec(0x20, seq![109u8, 116u8, 105u8, 109u8, 101u8], h.mtime as int, 0) + field_dec_spec(0x28, seq![109u8, 116u8, 105u8, 109u8, 101u8, 95u8, 110u8, 115u8, 101u8, 99u8], h.mtime_nsec as int, 0)));
    }
    field_dec(out, 0x2c, &[110, 108, 105, 110, 107], h.nlink as u64, 0);
    proof {
        vstd::seq_lib::lemma_concat_associative(o0, field_dec_spec(0x18, seq![117u8, 105u8, 100u8], h.uid as int, 0) + field_dec_spec(0x1c, seq![103u8, 105u8, 100u8], h.gid as int, 0) + field_dec_spec(0x20, seq![109u8, 116u8, 105u8, 109u8, 101u8], h.mtime as int, 0) + field_dec_spec(0x28, seq![109u8, 116u8, 105u8, 109u8, 101u8, 95u8, 110u8, 115u8, 101u8, 99u8], h.mtime_nsec as int, 0), field_dec_spec(0x2c, seq![110u8, 108u8, 105u8, 110u8, 107u8], h.nlink as int, 0));
        assert(out@ == o0 + (field_dec_spec(0x18, seq![117u8, 105u8, 100u8], h.uid as int, 0) + field_dec_spec(0x1c, seq![103u8, 105u8, 100u8], h.gid as int, 0) + field_dec_spec(0x20, seq![109u8, 116u8, 105u8, 109u8, 101u8], h.mtime as int, 0) + field_dec_spec(0x28, seq![109u8, 116u8, 105u8, 109u8, 101u8, 95u8, 110u8, 115u8, 101u8, 99u8], h.mtime_nsec as int, 0) + field_dec_spec(0x2c, seq![110u8, 108u8, 105u8, 110u8, 107u8], h.nlink as int, 0)));
    }
    field_bytes(out, 0x30, &[114, 101, 115, 101, 114, 118, 101, 100, 50], h.reserved2.as_slice());
    proof {
        vstd::seq_lib::lemma_concat_associative(o0, field_dec_spec(0x18, seq![117u8, 105u8, 100u8], h.uid as int, 0) + field_dec_spec(0x1c, seq![103u8, 105u8, 100u8], h.gid as int, 0) + field_dec_spec(0x20, seq![109u8, 116u8, 105u8, 109u8, 101u8], h.mtime as int, 0) + field_dec_spec(0x28, seq![109u8, 116u8, 105u8, 109u8, 101u8, 95u8, 110u8, 115u8, 101u8, 99u8], h.mtime_nsec as int, 0) + field_dec_spec(0x2c, seq![110u8, 108u8, 105u8, 110u8, 107u8], h.nlink as int, 0), field_bytes_spec(0x30, seq![114u8, 101u8, 115u8, 101u8, 114u8, 118u8, 101u8, 100u8, 50u8], h.reserved2@));
        assert(out@ == o0 + (field_dec_spec(0x18, seq![117u8, 105u8, 100u8], h.uid as int, 0) + field_dec_spec(0x1c, seq![103u8, 105u8, 100u8], h.gid as int, 0) + field_dec_spec(0x20, seq![109u8, 116u8, 105u8, 109u8, 101u8], h.mtime as int, 0) + field_dec_spec(0x28, seq![109u8, 116u8, 105u8, 109u8, 101u8, 95u8, 110u8, 115u8, 101u8, 99u8], h.mtime_nsec as int, 0) + field_dec_spec(0x2c, seq![110u8, 108u8, 105u8, 110u8, 107u8], h.nlink as int, 0) + field_bytes_spec(0x30, seq![114u8, 101u8, 115u8, 101u8, 114u8, 118u8, 101u8, 100u8, 50u8], h.reserved2@)));
    }
    proof {
        assert(final(out)@ == o0 + extended_fields_b(*h));
    }
}

/// Append the field lines of an extended inode header.
pub fn render_extended_fields(out: &mut Vec<u8>, h: &ExtendedInodeHeader)
    ensures
        final(out)@ == old(out)@ + extended_fields_spec(*h),
{
    render_extended_a(out, h);
    render_extended_b(out, h);
    proof {
        assert(final(out)@ =~= old(out)@ + extended_fields_spec(*h));
    }
}

/// The tail of an inode's report entry: its xattrs, then its inline
/// payload as a directory listing for a directory whose inline fragment
/// parses, else as a hex dump.
pub open spec fn inode_extra_spec(ino: Inode) -> Seq<u8> {
    render_opt_xattrs_spec(ino.xattrs) + (if ino.inline@.len() == 0 {
        Seq::empty()
    } else if (match ino.header {
        InodeHeader::Compact(h) => h.mode,
        InodeHeader::Extended(h) => h.mode,
    } & crate::erofs::format::S_IFMT) == crate::erofs::format::S_IFDIR
        && crate::erofs::reader::dirblock_ok(ino.inline@) {
        block_listing(ino.inline@)
    } else {
        hexdump_spec(ino.inline@)
    })
}

/// One listing line straight from the bytes of a directory block.
pub open spec fn block_listing_upto(s: Seq<u8>, i: int) -> Seq<u8>
    decreases i,
{
    if i <= 0 {
        Seq::empty()
    } else {
        let n = crate::erofs::reader::dirblock_count(s);
        block_listing_upto(s, i - 1) + seq![32u8, 32u8, 32u8, 32u8, 32u8, 32u8, 32u8, 32u8, 32u8, 32u8, 32u8, 32u8, 32u8] + utf8_or_hex_spec(
            s.subrange(
                crate::erofs::reader::dirent_name_off(s, i - 1),
                crate::erofs::reader::dirent_name_end(s, i - 1, n),
            ),
        ) + seq![32u8] + file_type_name(
            crate::erofs::format::spec_file_type_of(s[12 * (i - 1) + 10]),
        ) + seq![32u8, 45u8, 62u8, 32u8] + dec(crate::erofs::reader::le64(s, 12 * (i - 1)) as int) + seq![10u8]
    }
}

/// The listing of a directory block, straight from its bytes.
pub open spec fn block_listing(s: Seq<u8>) -> Seq<u8> {
    block_listing_upto(s, crate::erofs::reader::dirblock_count(s))
}

/// Decoded entries render exactly as the bytes they were decoded from.
pub proof fn lemma_listing_bridge(
    entries: Seq<crate::erofs::reader::DirectoryEntry>,
    s: Seq<u8>,
    i: int,
)
    requires
        crate::erofs::reader::dirblock_matches(entries, s),
        0 <= i <= entries.len(),
    ensures
        dirents_upto(entries, i) == block_listing_upto(s, i),
    decreases i,
{
    if i > 0 {
        lemma_listing_bridge(entries, s, i - 1);
        assert(crate::erofs::reader::dirent_matches(
            entries[i - 1],
            s,
            i - 1,
            crate::erofs::reader::dirblock_count(s),
        ));
    }
}

/// Append the tail of an inode's report entry.
pub fn print_inode_extra(out: &mut Vec<u8>, ino: &Inode)
    requires
        ino.inline@.len() <= 65520,
    ensures
        final(out)@ == old(out)@ + inode_extra_spec(*ino),
{
    print_xattrs(out, &ino.xattrs);
    if ino.inline.len() == 0 {
        proof {
            assert(final(out)@ =~= old(out)@ + inode_extra_spec(*ino));
        }
        return ;
    }
    let mode = ino.mode();
    if mode & crate::erofs::format::S_IFMT == crate::erofs::format::S_IFDIR {
        match DirectoryBlock::decode(ino.inline.as_slice()) {
            Ok(db) => {
                print_directory_block(out, &db);
                proof {
                    lemma_listing_bridge(db.entries@, ino.inline@, db.entries@.len() as int);
                    assert(final(out)@ =~= old(out)@ + inode_extra_spec(*ino));
                }
            },
            Err(_) => {
                hexdump(out, ino.inline.as_slice());
                proof {
                    assert(final(out)@ =~= old(out)@ + inode_extra_spec(*ino));
                }
            },
        }
    } else {
        hexdump(out, ino.inline.as_slice());
        proof {
            assert(final(out)@ =~= old(out)@ + inode_extra_spec(*ino));
        }
    }
}


/// The field lines of a compact inode header, straight from the bytes at
/// `off`.
pub open spec fn compact_fields_bytes(s: Seq<u8>, off: int) -> Seq<u8> {
    field_format_spec(crate::erofs::reader::le16(s, off)) + field_dec_spec(
        0x02,
        seq![120u8, 97u8, 116u8, 116u8, 114u8, 95u8, 105u8, 99u8, 111u8, 117u8, 110u8, 116u8],
        crate::erofs::reader::le16(s, off + 2) as int,
        0,
    ) + field_dec_spec(0x04, seq![109u8, 111u8, 100u8, 101u8], crate::erofs::reader::le16(s, off + 4) as int, 0)
        + field_dec_spec(
        0x0c,
        seq![114u8, 101u8, 115u8, 101u8, 114u8, 118u8, 101u8, 100u8],
        crate::erofs::reader::le32(s, off + 12) as int,
        0,
    ) + field_dec_spec(0x08, seq![115u8, 105u8, 122u8, 101u8], crate::erofs::reader::le32(s, off + 8) as int, 0)
        + field_dec_spec(0x10, seq![117u8], crate::erofs::reader::le32(s, off + 16) as int, 0)
        + field_dec_spec(0x14, seq![105u8, 110u8, 111u8], crate::erofs::reader::le32(s, off + 20) as int, 0)
        + field_dec_spec(0x18, seq![117u8, 105u8, 100u8], crate::erofs::reader::le16(s, off + 24) as int, 0)
        + field_dec_spec(0x1a, seq![103u8, 105u8, 100u8], crate::erofs::reader::le16(s, off + 26) as int, 0)
        + field_dec_spec(0x06, seq![110u8, 108u8, 105u8, 110u8, 107u8], crate::erofs::reader::le16(s, off + 6) as int, 0)
        + field_bytes_spec(0x1c, seq![114u8, 101u8, 115u8, 101u8, 114u8, 118u8, 101u8, 100u8, 50u8], s.subrange(off + 28, off + 32))
}

/// A decoded compact header renders exactly as its bytes.
pub proof fn lemma_compact_fields_bridge(h: CompactInodeHeader, s: Seq<u8>, off: int)
    requires
        crate::erofs::reader::compact_header_matches(h, s, off),
    ensures
        compact_fields_spec(h) == compact_fields_bytes(s, off),
{
}

/// The field lines of an extended inode header, straight from the bytes at
/// `off`.
pub open spec fn extended_fields_bytes(s: Seq<u8>, off: int) -> Seq<u8> {
    field_format_spec(crate::erofs::reader::le16(s, off)) + field_dec_spec(
        0x02,
        seq![120u8, 97u8, 116u8, 116u8, 114u8, 95u8, 105u8, 99u8, 111u8, 117u8, 110u8, 116u8],
        crate::erofs::reader::le16(s, off + 2) as int,
        0,
    ) + field_dec_spec(0x04, seq![109u8, 111u8, 100u8, 101u8], crate::erofs::reader::le16(s, off + 4) as int, 0)
        + field_dec_spec(
        0x06,
        seq![114u8, 101u8, 115u8, 101u8, 114u8, 118u8, 101u8, 100u8],
        crate::erofs::reader::le16(s, off + 6) as int,
        0,
    ) + field_dec_spec(0x08, seq![115u8, 105u8, 122u8, 101u8], crate::erofs::reader::le64(s, off + 8) as int, 0)
        + field_dec_spec(0x10, seq![117u8], crate::erofs::reader::le32(s, off + 16) as int, 0)
        + field_dec_spec(0x14, seq![105u8, 110u8, 111u8], crate::erofs::reader::le32(s, off + 20) as int, 0)
        + field_dec_spec(0x18, seq![117u8, 105u8, 100u8], crate::erofs::reader::le32(s, off + 24) as int, 0)
        + field_dec_spec(0x1c, seq![103u8, 105u8, 100u8], crate::erofs::reader::le32(s, off + 28) as int, 0)
        + field_dec_spec(0x20, seq![109u8, 116u8, 105u8, 109u8, 101u8], crate::erofs::reader::le64(s, off + 32) as int, 0)
        + field_dec_spec(
        0x28,
        seq![109u8, 116u8, 105u8, 109u8, 101u8, 95u8, 110u8, 115u8, 101u8, 99u8],
        crate::erofs::reader::le32(s, off + 40) as int,
        0,
    ) + field_dec_spec(0x2c, seq![110u8, 108u8, 105u8, 110u8, 107u8], crate::erofs::reader::le32(s, off + 44) as int, 0)
        + field_bytes_spec(0x30, seq![114u8, 101u8, 115u8, 101u8, 114u8, 118u8, 101u8, 100u8, 50u8], s.subrange(off + 48, off + 64))
}

/// A decoded extended header renders exactly as its bytes.
pub proof fn lemma_extended_fields_bridge(h: ExtendedInodeHeader, s: Seq<u8>, off: int)
    requires
        crate::erofs::reader::extended_header_matches(h, s, off),
    ensures
        extended_fields_spec(h) == extended_fields_bytes(s, off),
{
}

/// One local xattr list line, straight from the record bytes at its
/// offset.
pub open spec fn local_listing_upto(s: Seq<u8>, start: int, k: int) -> Seq<u8>
    decreases k,
{
    if k <= 0 {
        Seq::empty()
    } else {
        let p = crate::erofs::reader::nth_xattr_off(s, start, k - 1);
        local_listing_upto(s, start, k - 1) + seq![32u8, 32u8, 32u8, 32u8, 32u8, 32u8, 32u8, 32u8, 32u8, 32u8, 45u8, 32u8] + render_xattr_spec(
            s[p + 1],
            s[p],
            crate::erofs::reader::le16(s, p + 2),
            s.subrange(p + 4, p + 4 + s[p]),
            s.subrange(p + 4 + s[p], p + 4 + s[p] + crate::erofs::reader::le16(s, p + 2)),
            s.subrange(
                p + 4 + s[p] + crate::erofs::reader::le16(s, p + 2),
                p + crate::erofs::reader::xattr_total_at(s, p),
            ),
        ) + seq![10u8]
    }
}

/// Decoded local xattrs render exactly as their bytes.
pub proof fn lemma_local_listing_bridge(v: Seq<XAttr>, s: Seq<u8>, start: int, end: int, k: int)
    requires
        crate::erofs::reader::local_xattrs_match(v, s, start, end),
        0 <= k <= v.len(),
    ensures
        local_xattrs_upto(v, k) == local_listing_upto(s, start, k),
    decreases k,
{
    if k > 0 {
        lemma_local_listing_bridge(v, s, start, end, k - 1);
        assert(crate::erofs::reader::xattr_matches(
            v[k - 1],
            s,
            crate::erofs::reader::nth_xattr_off(s, start, k - 1),
        ));
    }
}

/// The display form of an inode's xattr area, straight from the bytes at
/// `xoff`, whose stored length is given by `icount`.
pub open spec fn xattrs_bytes(s: Seq<u8>, xoff: int, icount: u16) -> Seq<u8> {
    if icount == 0 {
        Seq::empty()
    } else {
        let sc = s[xoff + 4] as int;
        let ids = Seq::new(sc as nat, |k: int| crate::erofs::reader::le32(s, xoff + 12 + 4 * k));
        let lstart = xoff + 12 + 4 * sc;
        let lend = xoff + crate::erofs::reader::xattr_area_len(icount);
        (if sc > 0 {
            seq![32u8, 32u8, 32u8, 32u8, 32u8, 32u8, 32u8, 32u8, 32u8, 83u8, 104u8, 97u8, 114u8, 101u8, 100u8, 32u8, 120u8, 97u8, 116u8, 116u8, 114u8, 115u8, 58u8] + shared_ids_upto(ids, sc) + seq![10u8]
        } else {
            Seq::empty()
        }) + seq![32u8, 32u8, 32u8, 32u8, 32u8, 32u8, 32u8, 32u8, 32u8, 76u8, 111u8, 99u8, 97u8, 108u8, 32u8, 120u8, 97u8, 116u8, 116u8, 114u8, 115u8, 58u8, 10u8] + local_listing_upto(
            s,
            lstart,
            crate::erofs::reader::xattrs_count(s, lstart, lend),
        )
    }
}

/// Two id sequences equal up to `k` render the same shared line.
pub proof fn lemma_shared_ids_congruent(a: Seq<u32>, b: Seq<u32>, k: int)
    requires
        forall|j: int| 0 <= j < k ==> a[j] == b[j],
    ensures
        shared_ids_upto(a, k) == shared_ids_upto(b, k),
    decreases k,
{
    if k > 0 {
        lemma_shared_ids_congruent(a, b, k - 1);
    }
}

/// The tail of an inode's report entry, straight from the bytes at `off`.
pub open spec fn inode_extra_bytes(s: Seq<u8>, off: int, bits: u8) -> Seq<u8> {
    let hs = crate::erofs::reader::inode_hsize(s, off);
    let ic = crate::erofs::reader::le16(s, off + 2);
    let area = crate::erofs::reader::xattr_area_len(ic);
    let ilen = crate::erofs::reader::inode_inline_len(s, off, bits);
    let inline = s.subrange(off + hs + area, off + hs + area + ilen);
    xattrs_bytes(s, off + hs, ic) + (if ilen == 0 {
        Seq::empty()
    } else if (crate::erofs::reader::le16(s, off + 4) & crate::erofs::format::S_IFMT)
        == crate::erofs::format::S_IFDIR && crate::erofs::reader::dirblock_ok(inline) {
        block_listing(inline)
    } else {
        hexdump_spec(inline)
    })
}

/// A decoded inode's tail renders exactly as its bytes.
pub proof fn lemma_inode_extra_bridge(ino: Inode, s: Seq<u8>, off: int, bits: u8)
    requires
        crate::erofs::reader::inode_matches(ino, s, off, bits),
        0 <= off,
        off + crate::erofs::reader::inode_hsize(s, off) + crate::erofs::reader::xattr_area_len(
            crate::erofs::reader::le16(s, off + 2),
        ) + crate::erofs::reader::inode_inline_len(s, off, bits) <= s.len(),
    ensures
        inode_extra_spec(ino) == inode_extra_bytes(s, off, bits),
{
    let hs = crate::erofs::reader::inode_hsize(s, off);
    let ic = crate::erofs::reader::le16(s, off + 2);
    let area = crate::erofs::reader::xattr_area_len(ic);
    let ilen = crate::erofs::reader::inode_inline_len(s, off, bits);
    let inline = s.subrange(off + hs + area, off + hs + area + ilen);
    assert(ino.inline@ == inline);
    match ino.xattrs {
        None => {
            assert(render_opt_xattrs_spec(ino.xattrs) =~= xattrs_bytes(s, off + hs, ic));
        },
        Some(x) => {
            let sc = s[off + hs + 4] as int;
            let ids = Seq::new(
                sc as nat,
                |k: int| crate::erofs::reader::le32(s, off + hs + 12 + 4 * k),
            );
            assert(x.shared@.len() == sc);
            lemma_shared_ids_congruent(x.shared@, ids, sc);
            let lstart = off + hs + 12 + 4 * sc;
            let lend = off + hs + area;
            lemma_local_listing_bridge(x.local@, s, lstart, lend, x.local@.len() as int);
            assert(render_opt_xattrs_spec(ino.xattrs) == xattrs_bytes(s, off + hs, ic));
        },
    }
    match ino.header {
        InodeHeader::Compact(h) => {
            assert(h.mode == crate::erofs::reader::le16(s, off + 4));
        },
        InodeHeader::Extended(h) => {
            assert(h.mode == crate::erofs::reader::le16(s, off + 4));
        },
    }
    assert(render_opt_xattrs_spec(ino.xattrs) == xattrs_bytes(s, off + hs, ic));
    assert(inode_extra_spec(ino) =~= inode_extra_bytes(s, off, bits));
}

/// The header line of one report segment.
pub open spec fn segment_line(kind: SegmentKind, off: int) -> Seq<u8> {
    hex8(off) + match kind {
        SegmentKind::Header => seq![32u8, 67u8, 111u8, 109u8, 112u8, 111u8, 115u8, 101u8, 102u8, 115u8, 72u8, 101u8, 97u8, 100u8, 101u8, 114u8, 10u8],
        SegmentKind::Superblock => seq![32u8, 83u8, 117u8, 112u8, 101u8, 114u8, 98u8, 108u8, 111u8, 99u8, 107u8, 10u8],
        SegmentKind::CompactInode => seq![32u8, 73u8, 110u8, 111u8, 100u8, 101u8, 32u8, 40u8, 99u8, 111u8, 109u8, 112u8, 97u8, 99u8, 116u8, 41u8, 32u8, 35u8] + dec(off / 32) + seq![10u8],
        SegmentKind::ExtendedInode => seq![32u8, 73u8, 110u8, 111u8, 100u8, 101u8, 32u8, 40u8, 101u8, 120u8, 116u8, 101u8, 110u8, 100u8, 101u8, 100u8, 41u8, 32u8, 35u8] + dec(off / 32) + seq![10u8],
        SegmentKind::XAttr => seq![32u8, 88u8, 65u8, 116u8, 116u8, 114u8, 32u8, 35u8] + dec(off / 4) + seq![10u8],
        SegmentKind::DirectoryBlock => seq![32u8, 68u8, 105u8, 114u8, 101u8, 99u8, 116u8, 111u8, 114u8, 121u8, 32u8, 98u8, 108u8, 111u8, 99u8, 107u8, 10u8],
        SegmentKind::DataBlock => seq![32u8, 68u8, 97u8, 116u8, 97u8, 32u8, 98u8, 108u8, 111u8, 99u8, 107u8, 10u8],
    }
}

/// The body of one report segment: its paths, then its decoded content.
pub open spec fn segment_body(img: Image, seg: Segment) -> Seq<u8> {
    let s = img.data@;
    let off = seg.offset as int;
    match seg.kind {
        SegmentKind::Header => cheader_fields_spec(img.header),
        SegmentKind::Superblock => superblock_fields_spec(img.sb),
        SegmentKind::CompactInode => render_paths_spec(seg.paths@) + compact_fields_bytes(s, off)
            + inode_extra_bytes(s, off, img.blkszbits),
        SegmentKind::ExtendedInode => render_paths_spec(seg.paths@) + extended_fields_bytes(
            s,
            off,
        ) + inode_extra_bytes(s, off, img.blkszbits),
        SegmentKind::XAttr => render_paths_spec(seg.paths@) + seq![32u8, 32u8, 32u8, 32u8, 32u8, 32u8, 32u8, 32u8, 32u8, 32u8, 32u8, 32u8] + render_xattr_spec(
            s[off + 1],
            s[off],
            crate::erofs::reader::le16(s, off + 2),
            s.subrange(off + 4, off + 4 + s[off]),
            s.subrange(off + 4 + s[off], off + 4 + s[off] + crate::erofs::reader::le16(s, off + 2)),
            s.subrange(
                off + 4 + s[off] + crate::erofs::reader::le16(s, off + 2),
                off + crate::erofs::reader::xattr_total_at(s, off),
            ),
        ) + seq![10u8],
        SegmentKind::DirectoryBlock => render_paths_spec(seg.paths@) + block_listing(
            s.subrange(off, off + seg.size),
        ),
        SegmentKind::DataBlock => render_paths_spec(seg.paths@) + hexdump_spec(
            s.subrange(off, off + seg.size),
        ),
    }
}

/// The text that precedes a segment starting at `start` when the running
/// offset stands at `cur`: an overlap marker, a padding block, or nothing.
pub open spec fn gap_text(s: Seq<u8>, cur: int, start: int) -> Seq<u8> {
    if cur > start {
        seq![42u8, 42u8, 42u8, 32u8, 79u8, 118u8, 101u8, 114u8, 108u8, 97u8, 112u8, 112u8, 105u8, 110u8, 103u8, 32u8, 115u8, 101u8, 103u8, 109u8, 101u8, 110u8, 116u8, 115u8, 33u8, 10u8]
    } else if cur < start {
        let pad = s.subrange(cur, start);
        hex8(cur) + seq![32u8, 80u8, 97u8, 100u8, 100u8, 105u8, 110u8, 103u8, 10u8] + (if (forall|i: int| 0 <= i < pad.len() ==> pad[i] == 0) {
            seq![32u8, 32u8, 32u8, 32u8, 32u8, 32u8, 32u8, 32u8, 32u8] + dec(start - cur) + seq![32u8, 42u8, 32u8, 110u8, 117u8, 108u8, 10u8]
        } else {
            seq![32u8, 32u8, 32u8, 32u8, 32u8, 32u8, 32u8, 32u8, 32u8] + debug_bytes(pad) + seq![10u8]
        }) + seq![10u8]
    } else {
        Seq::empty()
    }
}

/// The report for the first `i` segments, with the running offset after
/// them.
pub open spec fn report_upto(img: Image, segs: Seq<Segment>, i: int) -> (Seq<u8>, int)
    decreases i,
{
    if i <= 0 {
        (Seq::empty(), 0)
    } else {
        let r = report_upto(img, segs, i - 1);
        let seg = segs[i - 1];
        (
            r.0 + gap_text(img.data@, r.1, seg.offset as int) + segment_line(
                seg.kind,
                seg.offset as int,
            ) + segment_body(img, seg) + seq![10u8],
            seg.offset + seg.size,
        )
    }
}

/// The whole report: every segment in offset order with the gaps between
/// them, then trailing padding or an overrun marker.
pub open spec fn report_spec(img: Image, segs: Seq<Segment>) -> Seq<u8> {
    let r = report_upto(img, segs, segs.len() as int);
    let len = img.data@.len() as int;
    r.0 + (if r.1 < len {
        let pad = img.data@.subrange(r.1, len);
        hex8(r.1) + seq![32u8, 80u8, 97u8, 100u8, 100u8, 105u8, 110u8, 103u8, 10u8] + (if (exists|i: int| 0 <= i < pad.len() && pad[i] != 0) {
            seq![32u8, 32u8, 32u8, 32u8, 32u8, 32u8, 32u8, 32u8, 32u8] + debug_bytes(pad) + seq![10u8]
        } else {
            Seq::empty()
        }) + seq![10u8]
    } else {
        Seq::empty()
    }) + (if r.1 > len {
        seq![42u8, 42u8, 42u8, 32u8, 83u8, 101u8, 103u8, 109u8, 101u8, 110u8, 116u8, 115u8, 32u8, 112u8, 97u8, 115u8, 116u8, 32u8, 69u8, 79u8, 70u8, 33u8, 10u8]
    } else {
        Seq::empty()
    })
}


/// The inode at this offset can be re-decoded and printed: it parses, its
/// stored form matches the segment kind, and its inline payload fits the
/// dump's row format.
pub open spec fn inode_seg_renderable(img: Image, offset: u64, compact: bool) -> bool {
    let s = img.data@;
    let meta = img.sb.meta_blkaddr * (1u64 << img.blkszbits);
    let off = offset as int;
    &&& off >= meta
    &&& (off - meta) % 32 == 0
    &&& crate::erofs::reader::inode_fits(
        s,
        img.sb.meta_blkaddr,
        img.blkszbits,
        (((off - meta) / 32) as u64),
    )
    &&& (crate::erofs::format::spec_inode_layout_of(
        crate::erofs::reader::le16(s, off),
    ) is Extended) == !compact
    &&& crate::erofs::reader::inode_inline_len(s, off, img.blkszbits) <= 65520
}

/// The segment's body can be rendered: the object at its offset re-decodes
/// and stays within the renderer's fixed row formats.
pub open spec fn segment_renderable(img: Image, seg: Segment) -> bool {
    let s = img.data@;
    let off = seg.offset as int;
    match seg.kind {
        SegmentKind::Header => true,
        SegmentKind::Superblock => true,
        SegmentKind::CompactInode => inode_seg_renderable(img, seg.offset, true),
        SegmentKind::ExtendedInode => inode_seg_renderable(img, seg.offset, false),
        SegmentKind::XAttr => off + 4 <= s.len() && off + crate::erofs::reader::xattr_total_at(
            s,
            off,
        ) <= s.len(),
        SegmentKind::DirectoryBlock => crate::erofs::reader::dirblock_ok(
            s.subrange(off, off + seg.size),
        ),
        SegmentKind::DataBlock => seg.size <= 65520,
    }
}

/// Append the body of one report segment, re-decoding the object at its
/// offset. Payloads beyond the hex dump's four-digit row offsets are
/// refused rather than printed misaligned; composefs images never reach
/// that bound.
#[verifier::rlimit(100)]
#[verifier::spinoff_prover]
fn render_segment_body(out: &mut Vec<u8>, img: &Image, seg: &Segment) -> (r: Result<
    (),
    ImageError,
>)
    requires
        img.wf(),
        seg.offset + seg.size <= img.data@.len(),
    ensures
        r is Ok <==> segment_renderable(*img, *seg),
        r is Ok ==> final(out)@ == old(out)@ + segment_body(*img, *seg),
{
    let len: usize = img.data.len();
    let d = img.data.as_slice();
    match seg.kind {
        SegmentKind::Header => {
            render_cheader(out, &img.header);
            Ok(())
        },
        SegmentKind::Superblock => {
            render_superblock(out, &img.sb);
            Ok(())
        },
        SegmentKind::CompactInode | SegmentKind::ExtendedInode => {
            let bits: u8 = img.blkszbits;
            let bs: u64 = 1u64 << bits;
            proof {
                assert(1u64 << bits >= 1 && (1u64 << bits) <= 0x8000_0000u64) by (bit_vector)
                    requires
                        bits < 32,
                ;
                assert((img.sb.meta_blkaddr as int) * (bs as int) <= 0xffff_ffff
                    * 0x8000_0000int) by (nonlinear_arith)
                    requires
                        img.sb.meta_blkaddr as int <= 0xffff_ffffint,
                        bs as int <= 0x8000_0000int,
                        img.sb.meta_blkaddr as int >= 0,
                        bs as int >= 1,
                ;
            }
            let ghost metag = (img.sb.meta_blkaddr * (1u64 << img.blkszbits)) as int;
            let meta128: u128 = (img.sb.meta_blkaddr as u128) * (bs as u128);
            proof {
                assert(meta128 as int == metag);
            }
            if (seg.offset as u128) < meta128 {
                proof {
                    assert(!segment_renderable(*img, *seg));
                }
                return Err(ImageError::SegmentMismatch);
            }
            let delta: u128 = seg.offset as u128 - meta128;
            if delta % 32 != 0 {
                proof {
                    assert(!segment_renderable(*img, *seg));
                }
                return Err(ImageError::SegmentMismatch);
            }
            let nid: u64 = (delta / 32) as u64;
            proof {
                assert(delta as int == seg.offset as int - metag);
                assert(nid as int == (seg.offset as int - metag) / 32);
            }
            let ino = match img.inode(nid) {
                Ok(i) => i,
                Err(e) => {
                    proof {
                        assert(!segment_renderable(*img, *seg));
                    }
                    return Err(e);
                },
            };
            proof {
                assert(crate::erofs::reader::inode_base(img.sb.meta_blkaddr, bits, nid)
                    == seg.offset as int);
            }
            if ino.inline.len() > 65520 {
                proof {
                    assert(!segment_renderable(*img, *seg));
                }
                return Err(ImageError::TruncatedImage);
            }
            print_paths(out, &seg.paths);
            match &ino.header {
                InodeHeader::Compact(h) => {
                    if !(seg.kind == SegmentKind::CompactInode) {
                        proof {
                            assert(crate::erofs::reader::inode_hsize(
                                img.data@,
                                seg.offset as int,
                            ) == 32);
                            assert(!segment_renderable(*img, *seg));
                        }
                        return Err(ImageError::SegmentMismatch);
                    }
                    render_compact_fields(out, h);
                    proof {
                        lemma_compact_fields_bridge(*h, img.data@, seg.offset as int);
                    }
                },
                InodeHeader::Extended(h) => {
                    if !(seg.kind == SegmentKind::ExtendedInode) {
                        proof {
                            assert(crate::erofs::reader::inode_hsize(
                                img.data@,
                                seg.offset as int,
                            ) == 64);
                            assert(!segment_renderable(*img, *seg));
                        }
                        return Err(ImageError::SegmentMismatch);
                    }
                    render_extended_fields(out, h);
                    proof {
                        lemma_extended_fields_bridge(*h, img.data@, seg.offset as int);
                    }
                },
            }
            print_inode_extra(out, &ino);
            proof {
                lemma_inode_extra_bridge(ino, img.data@, seg.offset as int, bits);
                match ino.header {
                    InodeHeader::Compact(_) => {
                        assert(crate::erofs::reader::inode_hsize(img.data@, seg.offset as int)
                            == 32);
                    },
                    InodeHeader::Extended(_) => {
                        assert(crate::erofs::reader::inode_hsize(img.data@, seg.offset as int)
                            == 64);
                    },
                }
                assert(segment_renderable(*img, *seg));
                assert(final(out)@ =~= old(out)@ + segment_body(*img, *seg));
            }
            Ok(())
        },
        SegmentKind::XAttr => {
            let x = match crate::erofs::reader::decode_xattr(d, seg.offset as usize, len) {
                Ok(x) => x,
                Err(e) => {
                    proof {
                        assert(!segment_renderable(*img, *seg));
                    }
                    return Err(e);
                },
            };
            print_paths(out, &seg.paths);
            crate::image::push_bytes(out, &[32, 32, 32, 32, 32, 32, 32, 32, 32, 32, 32, 32]);
            render_xattr(out, &x);
            crate::image::push_bytes(out, &[10]);
            proof {
                assert(final(out)@ =~= old(out)@ + segment_body(*img, *seg));
            }
            Ok(())
        },
        SegmentKind::DirectoryBlock => {
            let bytes = vstd::slice::slice_subrange(
                d,
                seg.offset as usize,
                (seg.offset + seg.size) as usize,
            );
            let db = match DirectoryBlock::decode(bytes) {
                Ok(db) => db,
                Err(e) => {
                    proof {
                        assert(!segment_renderable(*img, *seg));
                    }
                    return Err(e);
                },
            };
            print_paths(out, &seg.paths);
            print_directory_block(out, &db);
            proof {
                lemma_listing_bridge(db.entries@, bytes@, db.entries@.len() as int);
                assert(final(out)@ =~= old(out)@ + segment_body(*img, *seg));
            }
            Ok(())
        },
        SegmentKind::DataBlock => {
            if seg.size > 65520 {
                proof {
                    assert(!segment_renderable(*img, *seg));
                }
                return Err(ImageError::TruncatedImage);
            }
            let bytes = vstd::slice::slice_subrange(
                d,
                seg.offset as usize,
                (seg.offset + seg.size) as usize,
            );
            print_paths(out, &seg.paths);
            hexdump(out, bytes);
            proof {
                assert(final(out)@ =~= old(out)@ + segment_body(*img, *seg));
            }
            Ok(())
        },
    }
}

/// Append the header line of one report segment.
fn render_segment_line(out: &mut Vec<u8>, kind: SegmentKind, off: u64)
    requires
        off <= u32::MAX,
    ensures
        final(out)@ == old(out)@ + segment_line(kind, off as int),
{
    push_hex8(out, off as u32);
    match kind {
        SegmentKind::Header => crate::image::push_bytes(out, &[32, 67, 111, 109, 112, 111, 115, 101, 102, 115, 72, 101, 97, 100, 101, 114]),
        SegmentKind::Superblock => crate::image::push_bytes(out, &[32, 83, 117, 112, 101, 114, 98, 108, 111, 99, 107]),
        SegmentKind::CompactInode => {
            crate::image::push_bytes(out, &[32, 73, 110, 111, 100, 101, 32, 40, 99, 111, 109, 112, 97, 99, 116, 41, 32, 35]);
            push_dec(out, off / 32);
        },
        SegmentKind::ExtendedInode => {
            crate::image::push_bytes(out, &[32, 73, 110, 111, 100, 101, 32, 40, 101, 120, 116, 101, 110, 100, 101, 100, 41, 32, 35]);
            push_dec(out, off / 32);
        },
        SegmentKind::XAttr => {
            crate::image::push_bytes(out, &[32, 88, 65, 116, 116, 114, 32, 35]);
            push_dec(out, off / 4);
        },
        SegmentKind::DirectoryBlock => crate::image::push_bytes(out, &[32, 68, 105, 114, 101, 99, 116, 111, 114, 121, 32, 98, 108, 111, 99, 107]),
        SegmentKind::DataBlock => crate::image::push_bytes(out, &[32, 68, 97, 116, 97, 32, 98, 108, 111, 99, 107]),
    }
    crate::image::push_bytes(out, &[10]);
    proof {
        assert(final(out)@ =~= old(out)@ + segment_line(kind, off as int));
    }
}

/// Append the gap text between the running offset and the next segment.
#[verifier::rlimit(100)]
#[verifier::spinoff_prover]
fn render_gap(out: &mut Vec<u8>, img: &Image, cur: u64, start: u64)
    requires
        img.wf(),
        cur <= u32::MAX,
        cur <= img.data@.len(),
        start <= img.data@.len(),
    ensures
        final(out)@ == old(out)@ + gap_text(img.data@, cur as int, start as int),
{
    if cur > start {
        crate::image::push_bytes(out, &[42, 42, 42, 32, 79, 118, 101, 114, 108, 97, 112, 112, 105, 110, 103, 32, 115, 101, 103, 109, 101, 110, 116, 115, 33]);
        crate::image::push_bytes(out, &[10]);
        proof {
            assert(final(out)@ =~= old(out)@ + gap_text(img.data@, cur as int, start as int));
        }
    } else if cur < start {
        let _n: usize = img.data.len();
        let pad = vstd::slice::slice_subrange(img.data.as_slice(), cur as usize, start as usize);
        let mut allz: bool = true;
        let mut i: usize = 0;
        while i < pad.len()
            invariant
                0 <= i <= pad@.len(),
                allz == (forall|j: int| 0 <= j < i ==> pad@[j] == 0),
            decreases pad@.len() - i,
        {
            if pad[i] != 0 {
                allz = false;
            }
            i = i + 1;
        }
        push_hex8(out, cur as u32);
        crate::image::push_bytes(out, &[32, 80, 97, 100, 100, 105, 110, 103]);
        crate::image::push_bytes(out, &[10]);
        if allz {
            crate::image::push_bytes(out, &[32, 32, 32, 32, 32, 32, 32, 32, 32]);
            push_dec(out, start - cur);
            crate::image::push_bytes(out, &[32, 42, 32, 110, 117, 108]);
            crate::image::push_bytes(out, &[10]);
        } else {
            crate::image::push_bytes(out, &[32, 32, 32, 32, 32, 32, 32, 32, 32]);
            push_debug_bytes(out, pad);
            crate::image::push_bytes(out, &[10]);
        }
        crate::image::push_bytes(out, &[10]);
        proof {
            assert(final(out)@ =~= old(out)@ + gap_text(img.data@, cur as int, start as int));
        }
    }
}

/// Render the whole report for an already-walked image: every segment in
/// offset order with the padding gaps between them, then trailing padding
/// or an overrun marker.
#[verifier::rlimit(100)]
#[verifier::spinoff_prover]
pub fn render_report(img: &Image, segs: &Vec<Segment>) -> (r: Result<Vec<u8>, ImageError>)
    requires
        img.wf(),
        segs_sorted(segs@),
        segs_within(segs@, img.data@.len() as int),
    ensures
        r is Ok <==> (img.data@.len() <= u32::MAX && (forall|i: int|
            0 <= i < segs@.len() ==> segment_renderable(*img, #[trigger] segs@[i]))),
        match r {
            Ok(t) => t@ == report_spec(*img, segs@),
            Err(_) => true,
        },
{
    let len: usize = img.data.len();
    if len > u32::MAX as usize {
        return Err(ImageError::TruncatedImage);
    }
    let mut out: Vec<u8> = Vec::new();
    let mut cur: u64 = 0;
    let mut i: usize = 0;
    while i < segs.len()
        invariant
            img.wf(),
            segs_sorted(segs@),
            segs_within(segs@, img.data@.len() as int),
            len == img.data@.len(),
            len <= u32::MAX,
            0 <= i <= segs@.len(),
            forall|j: int| 0 <= j < i ==> segment_renderable(*img, #[trigger] segs@[j]),
            out@ == report_upto(*img, segs@, i as int).0,
            cur as int == report_upto(*img, segs@, i as int).1,
            cur <= len,
        decreases segs@.len() - i,
    {
        let seg = &segs[i];
        render_gap(&mut out, img, cur, seg.offset);
        render_segment_line(&mut out, seg.kind, seg.offset);
        match render_segment_body(&mut out, img, seg) {
            Ok(()) => {},
            Err(e) => {
                proof {
                    assert(!segment_renderable(*img, segs@[i as int]));
                }
                return Err(e);
            },
        }
        crate::image::push_bytes(&mut out, &[10]);
        cur = seg.offset + seg.size;
        proof {
            assert(out@ == report_upto(*img, segs@, i as int + 1).0);
        }
        i = i + 1;
    }
    if (cur as usize) < len {
        let pad = vstd::slice::slice_subrange(img.data.as_slice(), cur as usize, len);
        let mut any: bool = false;
        let mut k: usize = 0;
        while k < pad.len()
            invariant
                0 <= k <= pad@.len(),
                any == (exists|j: int| 0 <= j < k && pad@[j] != 0),
            decreases pad@.len() - k,
        {
            if pad[k] != 0 {
                any = true;
            }
            k = k + 1;
        }
        push_hex8(&mut out, cur as u32);
        crate::image::push_bytes(&mut out, &[32, 80, 97, 100, 100, 105, 110, 103]);
        crate::image::push_bytes(&mut out, &[10]);
        if any {
            crate::image::push_bytes(&mut out, &[32, 32, 32, 32, 32, 32, 32, 32, 32]);
            push_debug_bytes(&mut out, pad);
            crate::image::push_bytes(&mut out, &[10]);
        }
        crate::image::push_bytes(&mut out, &[10]);
    }
    proof {
        assert(out@ =~= report_spec(*img, segs@));
    }
    Ok(out)
}

/// Open an image, walk it, and render the full report: the composition of
/// `Image::open`, `visit_image` and `render_report`, each with its own
/// exact contract. A successful report is the rendering of the walk's own
/// finished segment list over these bytes; `lemma_walk_deterministic`
/// makes that list, and so the text, a function of the bytes alone.
pub fn debug_img(data: &[u8]) -> (r: Result<Vec<u8>, ImageError>)
    ensures
        r is Ok ==> crate::erofs::reader::image_ok(data@),
        !crate::erofs::reader::image_ok(data@) ==> r is Err,
        r is Ok ==> (exists|img: Image, segs: Seq<Segment>, k: nat|
            #![trigger walk_iter(img, k), report_spec(img, segs)]
            img.wf() && img.data@ == data@ && walk_iter(img, k) == WalkState::Done(
                segs_deep(segs),
            ) && segs_sorted(segs) && segs_within(segs, data@.len() as int) && seg_has_empty(
                segs,
                0,
                SegmentKind::Header,
                32,
            ) && seg_has_empty(segs, 1024, SegmentKind::Superblock, 128) && (forall|i: int|
                0 <= i < segs.len() ==> seg_valid(img, #[trigger] segs[i])) && r->Ok_0@
                == report_spec(img, segs)),
        r is Err ==> !crate::erofs::reader::image_ok(data@) || (exists|img: Image, k: nat|
            #![trigger walk_iter(img, k)]
            img.wf() && img.data@ == data@ && walk_iter(img, k) == WalkState::Fail(r->Err_0))
            || (exists|img: Image, segs: Seq<Segment>, k: nat|
            #![trigger walk_iter(img, k), segs_deep(segs)]
            img.wf() && img.data@ == data@ && walk_iter(img, k) == WalkState::Done(
                segs_deep(segs),
            ) && !(data@.len() <= u32::MAX && (forall|i: int|
                0 <= i < segs.len() ==> segment_renderable(img, #[trigger] segs[i])))),
{
    let img = match Image::open(vstd::slice::slice_to_vec(data)) {
        Ok(img) => img,
        Err(e) => {
            return Err(e);
        },
    };
    let segs = match visit_image(&img) {
        Ok(s) => s,
        Err(e) => {
            proof {
                let kw = choose|k: nat| #[trigger] walk_iter(img, k) == WalkState::Fail(e);
                assert(walk_iter(img, kw) == WalkState::Fail(e));
            }
            return Err(e);
        },
    };
    let text = match render_report(&img, &segs) {
        Ok(t) => t,
        Err(e) => {
            proof {
                let kw = choose|k: nat| #[trigger] walk_iter(img, k) == WalkState::Done(
                    segs_deep(segs@),
                );
                assert(walk_iter(img, kw) == WalkState::Done(segs_deep(segs@)));
            }
            return Err(e);
        },
    };
    proof {
        let kw = choose|k: nat| #[trigger] walk_iter(img, k) == WalkState::Done(
            segs_deep(segs@),
        );
        assert(walk_iter(img, kw) == WalkState::Done(segs_deep(segs@)));
        assert(text@ == report_spec(img, segs@));
    }
    Ok(text)
}


/// No segment runs into a later one.
pub open spec fn segs_nonoverlap(v: Seq<Segment>) -> bool {
    forall|i: int, j: int|
        0 <= i < j < v.len() ==> (#[trigger] v[i]).offset + v[i].size <= (#[trigger] v[j]).offset
}

/// Byte position `p` lies within segment `i`.
pub open spec fn in_seg(v: Seq<Segment>, i: int, p: int) -> bool {
    v[i].offset <= p < v[i].offset + v[i].size
}

/// Byte position `p` lies within gap `i`: after segment `i - 1` (or the
/// start of the image) and before segment `i` (or the end of the image).
pub open spec fn in_gap(v: Seq<Segment>, i: int, p: int, len: int) -> bool {
    let lo: int = if i == 0 {
        0
    } else {
        v[i - 1].offset + v[i - 1].size
    };
    let hi: int = if i < v.len() {
        v[i].offset as int
    } else {
        len
    };
    lo <= p < hi
}

/// Check that no recorded segment runs into a later one. Together with
/// `visit_image`'s sorted, in-bounds output and `lemma_segments_partition`,
/// a passing check establishes the full byte coverage of a walk: segments
/// plus gaps partition the image. A failing check names a malformed image,
/// whose report carries the overlap marker instead.
pub fn segments_disjoint(segs: &Vec<Segment>) -> (r: bool)
    requires
        segs_sorted(segs@),
    ensures
        r == segs_nonoverlap(segs@),
{
    let n: usize = segs.len();
    if n == 0 {
        return true;
    }
    let mut k: usize = 0;
    while k + 1 < n
        invariant
            0 <= k < n,
            n == segs@.len(),
            segs_sorted(segs@),
            forall|i: int, j: int|
                0 <= i < j <= k ==> (#[trigger] segs@[i]).offset + segs@[i].size <= (
                #[trigger] segs@[j]).offset,
        decreases n - k,
    {
        if (segs[k].offset as u128) + (segs[k].size as u128) > (segs[k + 1].offset as u128) {
            return false;
        }
        proof {
            assert forall|i: int, j: int|
                0 <= i < j <= k + 1 implies (#[trigger] segs@[i]).offset + segs@[i].size <= (
            #[trigger] segs@[j]).offset by {
                if j == k + 1 && i < k {
                    assert(segs@[i].offset + segs@[i].size <= segs@[i + 1].offset);
                    assert(segs@[i + 1].offset < segs@[k + 1].offset || i + 1 == k + 1);
                }
            }
        }
        k = k + 1;
    }
    true
}

/// The number of segments whose offset is at most `p`.
pub open spec fn seg_pos(v: Seq<Segment>, p: int) -> int
    decreases v.len(),
{
    if v.len() == 0 {
        0
    } else if v[0].offset <= p {
        1 + seg_pos(v.drop_first(), p)
    } else {
        0
    }
}

proof fn lemma_seg_pos(v: Seq<Segment>, p: int)
    requires
        segs_sorted(v),
    ensures
        0 <= seg_pos(v, p) <= v.len(),
        forall|j: int| 0 <= j < seg_pos(v, p) ==> (#[trigger] v[j]).offset <= p,
        forall|j: int| seg_pos(v, p) <= j < v.len() ==> (#[trigger] v[j]).offset > p,
    decreases v.len(),
{
    if v.len() > 0 {
        let t = v.drop_first();
        assert(forall|j: int| 0 <= j < t.len() ==> t[j] == v[j + 1]);
        assert(segs_sorted(t));
        lemma_seg_pos(t, p);
        if v[0].offset > p {
            assert forall|j: int| 0 <= j < v.len() implies (#[trigger] v[j]).offset > p by {
                if j > 0 {
                    assert(v[0].offset < v[j].offset);
                }
            }
        } else {
            let k = seg_pos(v, p);
            assert(k == 1 + seg_pos(t, p));
            assert forall|j: int| 0 <= j < k implies (#[trigger] v[j]).offset <= p by {
                if j > 0 {
                    assert(v[j] == t[j - 1]);
                }
            }
            assert forall|j: int| k <= j < v.len() implies (#[trigger] v[j]).offset > p by {
                assert(v[j] == t[j - 1]);
            }
        }
    }
}

/// For any well-formed walk, the segments together with the gaps between
/// them partition the image: every byte position lies in exactly one
/// segment or gap.
proof fn lemma_partition_exists(v: Seq<Segment>, len: int, p: int)
    requires
        segs_sorted(v),
        segs_within(v, len),
        segs_nonoverlap(v),
        0 <= p < len,
    ensures
        (exists|i: int| 0 <= i < v.len() && in_seg(v, i, p)) || (exists|i: int|
            0 <= i <= v.len() && in_gap(v, i, p, len)),
{
    lemma_seg_pos(v, p);
    let k = seg_pos(v, p);
    if k == 0 {
        assert(in_gap(v, 0, p, len));
    } else {
        assert(v[k - 1].offset <= p);
        if p < v[k - 1].offset + v[k - 1].size {
            assert(in_seg(v, k - 1, p));
        } else {
            if k < v.len() {
                assert(v[k].offset > p);
            }
            assert(in_gap(v, k, p, len));
        }
    }
}

proof fn lemma_no_seg_seg(v: Seq<Segment>, len: int, p: int)
    requires
        segs_sorted(v),
        segs_nonoverlap(v),
    ensures
        forall|i: int, j: int| 0 <= i < j < v.len() ==> !(in_seg(v, i, p) && in_seg(v, j, p)),
{
    assert forall|i: int, j: int| 0 <= i < j < v.len() implies !(in_seg(v, i, p) && in_seg(
        v,
        j,
        p,
    )) by {
        if in_seg(v, i, p) && in_seg(v, j, p) {
            assert(v[i].offset + v[i].size <= v[j].offset);
        }
    }
}

proof fn lemma_no_gap_gap(v: Seq<Segment>, len: int, p: int)
    requires
        segs_sorted(v),
    ensures
        forall|i: int, j: int|
            0 <= i < j <= v.len() ==> !(in_gap(v, i, p, len) && in_gap(v, j, p, len)),
{
    assert forall|i: int, j: int| 0 <= i < j <= v.len() implies !(in_gap(v, i, p, len) && in_gap(
        v,
        j,
        p,
        len,
    )) by {
        if in_gap(v, i, p, len) && in_gap(v, j, p, len) {
            assert(i < v.len());
            if j - 1 > i {
                assert(v[i].offset < v[j - 1].offset);
            }
            assert(p < v[i].offset);
            assert(p >= v[j - 1].offset + v[j - 1].size);
        }
    }
}

proof fn lemma_no_seg_gap(v: Seq<Segment>, len: int, p: int)
    requires
        segs_sorted(v),
        segs_nonoverlap(v),
    ensures
        forall|i: int, j: int|
            0 <= i < v.len() && 0 <= j <= v.len() ==> !(in_seg(v, i, p) && in_gap(v, j, p, len)),
{
    assert forall|i: int, j: int| 0 <= i < v.len() && 0 <= j <= v.len() implies !(in_seg(v, i, p)
        && in_gap(v, j, p, len)) by {
        if in_seg(v, i, p) && in_gap(v, j, p, len) {
            if j <= i {
                assert(j < v.len());
                if j < i {
                    assert(v[j].offset < v[i].offset);
                }
                assert(p < v[j].offset);
            } else {
                if j - 1 == i {
                    assert(p >= v[i].offset + v[i].size);
                } else {
                    assert(v[i].offset + v[i].size <= v[j - 1].offset);
                    assert(p >= v[j - 1].offset + v[j - 1].size);
                }
            }
        }
    }
}

/// For any well-formed walk, the segments together with the gaps between
/// them partition the image: every byte position lies in exactly one
/// segment or gap.
pub proof fn lemma_segments_partition(v: Seq<Segment>, len: int, p: int)
    requires
        segs_sorted(v),
        segs_within(v, len),
        segs_nonoverlap(v),
        0 <= p < len,
    ensures
        (exists|i: int| 0 <= i < v.len() && in_seg(v, i, p)) || (exists|i: int|
            0 <= i <= v.len() && in_gap(v, i, p, len)),
        forall|i: int, j: int|
            0 <= i < j < v.len() ==> !(in_seg(v, i, p) && in_seg(v, j, p)),
        forall|i: int, j: int|
            0 <= i < j <= v.len() ==> !(in_gap(v, i, p, len) && in_gap(v, j, p, len)),
        forall|i: int, j: int|
            0 <= i < v.len() && 0 <= j <= v.len() ==> !(in_seg(v, i, p) && in_gap(v, j, p, len)),
{
    lemma_partition_exists(v, len, p);
    lemma_no_seg_seg(v, len, p);
    lemma_no_gap_gap(v, len, p);
    lemma_no_seg_gap(v, len, p);
}

} // verus!
