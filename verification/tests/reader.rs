use composefs::erofs::format::DataLayout;
use composefs::erofs::reader::{
    decode_xattr, read_le16, read_le32, read_le64, ComposefsHeader, DirectoryBlock, Image,
    ImageError, Superblock,
};

fn put16(v: &mut Vec<u8>, off: usize, x: u16) {
    v[off..off + 2].copy_from_slice(&x.to_le_bytes());
}

fn put32(v: &mut Vec<u8>, off: usize, x: u32) {
    v[off..off + 4].copy_from_slice(&x.to_le_bytes());
}

fn put64(v: &mut Vec<u8>, off: usize, x: u64) {
    v[off..off + 8].copy_from_slice(&x.to_le_bytes());
}

#[test]
fn little_endian_reads() {
    let data = vec![0x78, 0x56, 0x34, 0x12, 0xaa, 0xbb, 0xcc, 0xdd];
    assert_eq!(read_le16(&data, 0), 0x5678);
    assert_eq!(read_le32(&data, 0), 0x12345678);
    assert_eq!(read_le64(&data, 0), 0xddccbbaa12345678);
}

#[test]
fn superblock_decode_fields() {
    let mut b = vec![0u8; 128];
    put32(&mut b, 0, 0xE0F5E1E2);
    b[12] = 12; // blkszbits
    put16(&mut b, 14, 7); // root_nid
    put64(&mut b, 16, 42); // inos
    put32(&mut b, 40, 1); // meta_blkaddr
    put32(&mut b, 44, 2); // xattr_blkaddr
    let sb = Superblock::decode(&b, 0);
    assert_eq!(sb.magic, 0xE0F5E1E2);
    assert_eq!(sb.blkszbits, 12);
    assert_eq!(sb.root_nid, 7);
    assert_eq!(sb.inos, 42);
    assert_eq!(sb.meta_blkaddr, 1);
    assert_eq!(sb.xattr_blkaddr, 2);
    assert_eq!(sb.uuid, vec![0u8; 16]);
}

#[test]
fn composefs_header_decode_fields() {
    let mut b = vec![0u8; 32];
    put32(&mut b, 0, 0xd078629a);
    put32(&mut b, 4, 1); // version
    put32(&mut b, 8, 1); // flags: HasAcl
    put32(&mut b, 12, 1); // composefs_version
    let h = ComposefsHeader::decode(&b, 0);
    assert_eq!(h.magic, 0xd078629a);
    assert_eq!(h.version, 1);
    assert_eq!(h.flags, 1);
    assert_eq!(h.composefs_version, 1);
    assert_eq!(h.unused, vec![0u32; 4]);
}

#[test]
fn xattr_decode_resolves_prefix_and_padding() {
    // name_index 1 (`user.`), suffix "foo", value "bar": record is
    // 4 + 3 + 3 = 10 bytes, padded to 12
    let mut b = vec![0u8; 16];
    b[0] = 3; // name_len
    b[1] = 1; // name_index
    put16(&mut b, 2, 3); // value_size
    b[4..7].copy_from_slice(b"foo");
    b[7..10].copy_from_slice(b"bar");
    let x = decode_xattr(&b, 0, 16).unwrap();
    assert_eq!(x.header.name_index, 1);
    assert_eq!(x.suffix, b"foo".to_vec());
    assert_eq!(x.value, b"bar".to_vec());
    assert_eq!(x.padding, vec![0u8, 0]);
    // the stored record length is a multiple of 4
    assert_eq!((4 + x.suffix.len() + x.value.len() + x.padding.len()) % 4, 0);
}

#[test]
fn xattr_decode_refuses_truncation() {
    let b = vec![0u8; 3];
    assert_eq!(decode_xattr(&b, 0, 3).unwrap_err(), ImageError::TruncatedImage);
    let mut b2 = vec![0u8; 6];
    b2[0] = 40; // suffix would run past the limit
    assert_eq!(decode_xattr(&b2, 0, 6).unwrap_err(), ImageError::TruncatedImage);
}

#[test]
fn directory_block_decode() {
    // two entries: "." and "hi"
    let mut b = vec![0u8; 27];
    put64(&mut b, 0, 11); // inode of "."
    put16(&mut b, 8, 24); // name offset: 2 headers * 12
    b[10] = 2; // type: directory
    put64(&mut b, 12, 13); // inode of "hi"
    put16(&mut b, 20, 25);
    b[22] = 1; // type: regular file
    b[24] = b'.';
    b[25..27].copy_from_slice(b"hi");
    let db = DirectoryBlock::decode(&b).unwrap();
    let entries = db.entries();
    assert_eq!(entries.len(), 2);
    assert_eq!(entries[0].name, b".".to_vec());
    assert_eq!(entries[0].inode, 11);
    assert_eq!(entries[1].name, b"hi".to_vec());
    assert_eq!(entries[1].inode, 13);
}

#[test]
fn directory_block_refuses_bad_offsets() {
    let mut b = vec![0u8; 24];
    put16(&mut b, 8, 13); // not a multiple of the header size
    assert_eq!(DirectoryBlock::decode(&b).unwrap_err(), ImageError::TruncatedImage);
    let mut b2 = vec![0u8; 24];
    put16(&mut b2, 8, 36); // header array would leave the block
    assert_eq!(DirectoryBlock::decode(&b2).unwrap_err(), ImageError::TruncatedImage);
}

#[test]
fn open_checks_magics_and_length() {
    assert_eq!(Image::open(vec![0u8; 100]).unwrap_err(), ImageError::TruncatedImage);
    let mut img = vec![0u8; 8192];
    assert_eq!(Image::open(img.clone()).unwrap_err(), ImageError::BadMagic);
    put32(&mut img, 0, 0xd078629a);
    assert_eq!(Image::open(img.clone()).unwrap_err(), ImageError::BadMagic);
    put32(&mut img, 1024, 0xE0F5E1E2);
    img[1024 + 12] = 12; // blkszbits
    let opened = Image::open(img).unwrap();
    assert_eq!(opened.blkszbits, 12);
    assert_eq!(opened.header.magic, 0xd078629a);
    assert_eq!(opened.sb.magic, 0xE0F5E1E2);
}

#[test]
fn inode_decode_and_blocks() {
    let mut img = vec![0u8; 16384];
    put32(&mut img, 0, 0xd078629a);
    put32(&mut img, 1024, 0xE0F5E1E2);
    img[1024 + 12] = 12;
    put32(&mut img, 1024 + 40, 1); // meta_blkaddr
    // compact inode nid 0 at 4096: FlatPlain, 8000 bytes in blocks 2 and 3
    put16(&mut img, 4096, 0); // format: compact | FlatPlain
    put16(&mut img, 4096 + 4, 0o100644);
    put16(&mut img, 4096 + 6, 1); // nlink
    put32(&mut img, 4096 + 8, 8000); // size
    put32(&mut img, 4096 + 16, 2); // u: first payload block
    let opened = Image::open(img).unwrap();
    let ino = opened.inode(0).unwrap();
    assert_eq!(ino.mode(), 0o100644);
    assert_eq!(ino.size(), 8000);
    assert_eq!(ino.nlink(), 1);
    assert_eq!(ino.u(), 2);
    assert_eq!(ino.format().data_layout(), Ok(DataLayout::FlatPlain));
    assert!(ino.inline().is_empty());
    assert!(ino.xattrs().is_none());
    // ceil(8000 / 4096) = 2 whole blocks, numbered from `u`
    assert_eq!(ino.blocks(12).unwrap(), vec![2, 3]);
    // the blocks can be fetched whole
    assert_eq!(opened.data_block(2).unwrap().len(), 4096);
    assert_eq!(opened.data_block(3).unwrap().len(), 4096);
    assert_eq!(opened.data_block(4).unwrap_err(), ImageError::TruncatedImage);
}

#[test]
fn inode_with_bad_layout_bits_is_refused() {
    let mut img = vec![0u8; 8192];
    put32(&mut img, 0, 0xd078629a);
    put32(&mut img, 1024, 0xE0F5E1E2);
    img[1024 + 12] = 12;
    put32(&mut img, 1024 + 40, 1);
    put16(&mut img, 4096, 2); // unassigned data-layout bits
    let opened = Image::open(img).unwrap();
    assert_eq!(opened.inode(0).unwrap_err(), ImageError::InvalidDataLayout);
    // an inode past the end of the image is refused too
    assert_eq!(opened.inode(1 << 40).unwrap_err(), ImageError::TruncatedImage);
}
