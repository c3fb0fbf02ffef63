use composefs::erofs::format::{
    DataLayout, FileType, FormatError, FormatField, InodeLayout, COMPOSEFS_MAGIC, MAGIC_V1,
    S_IFBLK, S_IFCHR, S_IFDIR, S_IFIFO, S_IFLNK, S_IFREG, S_IFSOCK,
};

#[test]
fn format_field_round_trip() {
    let pairs = [
        (InodeLayout::Compact, DataLayout::FlatPlain),
        (InodeLayout::Compact, DataLayout::FlatInline),
        (InodeLayout::Compact, DataLayout::ChunkBased),
        (InodeLayout::Extended, DataLayout::FlatPlain),
        (InodeLayout::Extended, DataLayout::FlatInline),
        (InodeLayout::Extended, DataLayout::ChunkBased),
    ];
    for (il, dl) in pairs {
        let f = FormatField::new(il, dl);
        assert_eq!(f.inode_layout(), il);
        assert_eq!(f.data_layout(), Ok(dl));
    }
}

#[test]
fn extended_flat_inline_encodes_to_five() {
    let f = FormatField::new(InodeLayout::Extended, DataLayout::FlatInline);
    assert_eq!(f.0, 5);
    assert_eq!(f.inode_layout(), InodeLayout::Extended);
    assert_eq!(f.data_layout(), Ok(DataLayout::FlatInline));
}

#[test]
fn unassigned_data_layout_bits_are_refused() {
    for v in [2u16, 6, 10, 12, 14] {
        assert_eq!(FormatField(v).data_layout(), Err(FormatError::InvalidDataLayout));
    }
}

#[test]
fn format_field_default_is_sentinel() {
    let f: FormatField = Default::default();
    assert_eq!(f.0, 0xffff);
}

#[test]
fn file_type_mode_bits() {
    assert_eq!(FileType::RegularFile.to_ifmt(), S_IFREG);
    assert_eq!(FileType::Directory.to_ifmt(), S_IFDIR);
    assert_eq!(FileType::CharacterDevice.to_ifmt(), S_IFCHR);
    assert_eq!(FileType::BlockDevice.to_ifmt(), S_IFBLK);
    assert_eq!(FileType::Fifo.to_ifmt(), S_IFIFO);
    assert_eq!(FileType::Socket.to_ifmt(), S_IFSOCK);
    assert_eq!(FileType::Symlink.to_ifmt(), S_IFLNK);
}

#[test]
fn file_type_table() {
    assert_eq!(FileType::from_byte(0), FileType::Unknown);
    assert_eq!(FileType::from_byte(1), FileType::RegularFile);
    assert_eq!(FileType::from_byte(2), FileType::Directory);
    assert_eq!(FileType::from_byte(3), FileType::CharacterDevice);
    assert_eq!(FileType::from_byte(4), FileType::BlockDevice);
    assert_eq!(FileType::from_byte(5), FileType::Fifo);
    assert_eq!(FileType::from_byte(6), FileType::Socket);
    assert_eq!(FileType::from_byte(7), FileType::Symlink);
    assert_eq!(FileType::from_byte(200), FileType::Unknown);
}

#[test]
fn magics() {
    assert_eq!(COMPOSEFS_MAGIC, 0xd078629a);
    assert_eq!(MAGIC_V1, 0xE0F5E1E2);
}
