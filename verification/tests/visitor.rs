use composefs::erofs::debug::{
    debug_img, render_xattr, segments_disjoint, utf8_or_hex, visit_image, SegmentKind,
};
use composefs::erofs::reader::{Image, XAttr, XAttrHeader};

fn put16(v: &mut Vec<u8>, off: usize, x: u16) {
    v[off..off + 2].copy_from_slice(&x.to_le_bytes());
}

fn put32(v: &mut Vec<u8>, off: usize, x: u32) {
    v[off..off + 4].copy_from_slice(&x.to_le_bytes());
}

fn put64(v: &mut Vec<u8>, off: usize, x: u64) {
    v[off..off + 8].copy_from_slice(&x.to_le_bytes());
}

/// A minimal image: header, superblock, a compact root directory with an
/// inline directory block, and one compact regular file with inline
/// content `hello`.
fn two_file_image() -> Vec<u8> {
    let mut img = vec![0u8; 8192];
    put32(&mut img, 0, 0xd078629a);
    put32(&mut img, 1024, 0xE0F5E1E2);
    img[1024 + 12] = 12; // blkszbits
    put16(&mut img, 1024 + 14, 0); // root_nid
    put32(&mut img, 1024 + 40, 1); // meta_blkaddr: inodes start at 4096

    // root directory inode, nid 0 at 4096: compact, FlatInline
    let root = 4096;
    put16(&mut img, root, 4); // format: compact | FlatInline
    put16(&mut img, root + 4, 0o040755); // mode: directory
    put16(&mut img, root + 6, 2); // nlink
    put32(&mut img, root + 8, 44); // size: the inline directory block

    // the inline directory block at 4096 + 32: ".", "..", "hello"
    let db = root + 32;
    put64(&mut img, db, 0); // "." names the root itself
    put16(&mut img, db + 8, 36);
    img[db + 10] = 2;
    put64(&mut img, db + 12, 0); // ".." too
    put16(&mut img, db + 20, 37);
    img[db + 22] = 2;
    put64(&mut img, db + 24, 3); // "hello" names nid 3
    put16(&mut img, db + 32, 39);
    img[db + 34] = 1;
    img[db + 36] = b'.';
    img[db + 37] = b'.';
    img[db + 38] = b'.';
    img[db + 39..db + 44].copy_from_slice(b"hello");

    // regular file inode, nid 3 at 4096 + 96: compact, FlatInline
    let f = 4096 + 96;
    put16(&mut img, f, 4);
    put16(&mut img, f + 4, 0o100644); // mode: regular file
    put16(&mut img, f + 6, 1); // nlink
    put32(&mut img, f + 8, 5); // size
    img[f + 32..f + 37].copy_from_slice(b"hello");
    img
}

#[test]
fn visits_every_segment_in_offset_order() {
    let bytes = two_file_image();
    let img = Image::open(bytes.clone()).unwrap();
    let segs = visit_image(&img).unwrap();
    let summary: Vec<(u64, u64, SegmentKind)> =
        segs.iter().map(|s| (s.offset, s.size, s.kind)).collect();
    assert_eq!(
        summary,
        vec![
            (0, 32, SegmentKind::Header),
            (1024, 128, SegmentKind::Superblock),
            (4096, 76, SegmentKind::CompactInode),
            (4192, 37, SegmentKind::CompactInode),
        ]
    );
    assert_eq!(segs[2].paths, vec![b"/".to_vec()]);
    assert_eq!(segs[3].paths, vec![b"/hello".to_vec()]);
}

#[test]
fn every_byte_is_covered_or_zero_padding() {
    let bytes = two_file_image();
    let img = Image::open(bytes.clone()).unwrap();
    let segs = visit_image(&img).unwrap();
    assert!(segments_disjoint(&segs));
    let mut covered = vec![false; bytes.len()];
    for s in &segs {
        for p in s.offset..s.offset + s.size {
            assert!(!covered[p as usize], "segments overlap at {}", p);
            covered[p as usize] = true;
        }
    }
    for (p, c) in covered.iter().enumerate() {
        if !c {
            assert_eq!(bytes[p], 0, "uncovered non-zero byte at {}", p);
        }
    }
}

#[test]
fn report_is_deterministic() {
    let bytes = two_file_image();
    // two independent walks and renderings of the same bytes agree exactly
    assert_eq!(debug_img(&bytes).unwrap(), debug_img(&bytes).unwrap());
    let img1 = Image::open(bytes.clone()).unwrap();
    let img2 = Image::open(bytes.clone()).unwrap();
    let s1: Vec<(u64, u64, SegmentKind, Vec<Vec<u8>>)> = visit_image(&img1)
        .unwrap()
        .into_iter()
        .map(|s| (s.offset, s.size, s.kind, s.paths))
        .collect();
    let s2: Vec<(u64, u64, SegmentKind, Vec<Vec<u8>>)> = visit_image(&img2)
        .unwrap()
        .into_iter()
        .map(|s| (s.offset, s.size, s.kind, s.paths))
        .collect();
    assert_eq!(s1, s2);
}

#[test]
fn report_renders_the_whole_image() {
    let bytes = two_file_image();
    let text = String::from_utf8(debug_img(&bytes).unwrap()).unwrap();
    assert!(text.contains("00000000 ComposefsHeader"));
    assert!(text.contains("00000400 Superblock"));
    assert!(text.contains("00001000 Inode (compact) #128"));
    assert!(text.contains("00001060 Inode (compact) #131"));
    assert!(text.contains("filename: \"/hello\""));
    // the directory listing of the root's inline block
    assert!(text.contains("\"hello\" RegularFile -> 3"));
    // the gap between the superblock and the meta region is zero padding
    assert!(text.contains(" * nul"));
    // the file's inline payload appears as a hex dump with an ASCII gutter
    assert!(text.contains("68 65 6c 6c 6f"));
}

#[test]
fn bad_image_is_refused() {
    assert!(debug_img(&[0u8; 64]).is_err());
}

#[test]
fn display_form_quotes_utf8_and_hexes_the_rest() {
    let mut out = Vec::new();
    utf8_or_hex(&mut out, b"ab");
    assert_eq!(out, b"\"ab\"".to_vec());
    let mut out2 = Vec::new();
    utf8_or_hex(&mut out2, &[0xff, 0x00]);
    assert_eq!(out2, b"ff00".to_vec());
}

#[test]
fn xattr_display_reports_nonzero_padding() {
    let x = XAttr {
        header: XAttrHeader { name_len: 3, name_index: 1, value_size: 3 },
        suffix: b"foo".to_vec(),
        value: b"bar".to_vec(),
        padding: vec![0, 0],
    };
    let mut out = Vec::new();
    render_xattr(&mut out, &x);
    assert_eq!(String::from_utf8(out).unwrap(), "(1 3 3) user.\"foo\" = \"bar\"");
    let y = XAttr {
        header: XAttrHeader { name_len: 3, name_index: 1, value_size: 3 },
        suffix: b"foo".to_vec(),
        value: b"bar".to_vec(),
        padding: vec![7, 0],
    };
    let mut out2 = Vec::new();
    render_xattr(&mut out2, &y);
    assert_eq!(String::from_utf8(out2).unwrap(), "(1 3 3) user.\"foo\" = \"bar\" [7, 0]");
}

/// The same image, with the file carrying one shared and one local xattr,
/// and a shared-xattr region behind `xattr_blkaddr`.
fn xattr_image() -> Vec<u8> {
    let mut img = two_file_image();
    img.resize(16384, 0);
    put32(&mut img, 1024 + 44, 2); // xattr_blkaddr: shared records at 8192

    let f = 4096 + 96;
    // xattr_icount 5: a 12-byte area header, one shared id, one 12-byte
    // local record
    put16(&mut img, f + 2, 5);
    put32(&mut img, f + 32, 0); // name_filter
    img[f + 36] = 1; // shared_count
    put32(&mut img, f + 44, 0); // shared id 0
    img[f + 48] = 3; // local record: name_len
    img[f + 49] = 1; // name_index: `user.`
    put16(&mut img, f + 50, 3); // value_size
    img[f + 52..f + 55].copy_from_slice(b"foo");
    img[f + 55..f + 58].copy_from_slice(b"bar");
    // the inline payload now sits after the xattr area
    img[f + 32..f + 37].copy_from_slice(&[0u8; 5]);
    img[f + 60..f + 65].copy_from_slice(b"hello");
    // undo the line above for the area header it overwrote
    put32(&mut img, f + 32, 0);
    img[f + 36] = 1;

    // shared xattr record 0: `user.sx` = `v`
    img[8192] = 2; // name_len
    img[8193] = 1; // name_index
    put16(&mut img, 8194, 1); // value_size
    img[8196..8198].copy_from_slice(b"sx");
    img[8198] = b'v';
    img
}

#[test]
fn xattrs_are_walked_and_rendered() {
    let bytes = xattr_image();
    let img = Image::open(bytes.clone()).unwrap();
    let segs = visit_image(&img).unwrap();
    let summary: Vec<(u64, u64, SegmentKind)> =
        segs.iter().map(|s| (s.offset, s.size, s.kind)).collect();
    assert_eq!(
        summary,
        vec![
            (0, 32, SegmentKind::Header),
            (1024, 128, SegmentKind::Superblock),
            (4096, 76, SegmentKind::CompactInode),
            (4192, 65, SegmentKind::CompactInode),
            (8192, 8, SegmentKind::XAttr),
        ]
    );
    assert!(segments_disjoint(&segs));
    let text = String::from_utf8(debug_img(&bytes).unwrap()).unwrap();
    assert!(text.contains("Shared xattrs: 0"));
    assert!(text.contains("- (1 3 3) user.\"foo\" = \"bar\""));
    assert!(text.contains("00002000 XAttr #2048"));
    assert!(text.contains("(1 2 1) user.\"sx\" = \"v\""));
}
