//! Fixed on-disk layout primitives: the two-byte inode format field, file
//! types, POSIX mode constants, and the magic numbers of the image header
//! and superblock.

use vstd::prelude::*;

verus! {

/// Error produced when a format field carries data-layout bits that do not
/// name a recognized layout.
#[derive(Clone, Copy, Debug, PartialEq, Eq, Structural)]
pub enum FormatError {
    InvalidDataLayout,
}

pub const BLOCK_BITS: u8 = 12;
pub const BLOCK_SIZE: usize = 1 << 12;

pub const COMPOSEFS_VERSION: u32 = 1;
pub const COMPOSEFS_MAGIC: u32 = 0xd078629a;

/// Flag bits carried by the composefs header.
#[derive(Clone, Copy, Debug, PartialEq, Eq, Structural)]
pub enum ComposefsFlags {
    HasAcl,
}

impl ComposefsFlags {
    /// The bit this flag occupies in the header's flags word.
    pub fn bit(&self) -> (r: u32)
        ensures
            r == 1u32,
    {
        match self {
            ComposefsFlags::HasAcl => 1u32,
        }
    }
}

pub const MAGIC_V1: u32 = 0xE0F5E1E2;
pub const FEATURE_COMPAT_MTIME: u32 = 2;
pub const FEATURE_COMPAT_XATTR_FILTER: u32 = 4;

/// Whether an inode is stored as a 32-byte compact or a 64-byte extended
/// record.
#[derive(Clone, Copy, Debug, PartialEq, Eq, Structural)]
pub enum InodeLayout {
    Compact,
    Extended,
}

/// Where an inode's payload lives: wholly in blocks, in blocks with an
/// inline tail fragment, or behind a chunk index.
#[derive(Clone, Copy, Debug, PartialEq, Eq, Structural)]
pub enum DataLayout {
    FlatPlain,
    FlatInline,
    ChunkBased,
}

/// The bit pattern a given inode layout contributes to a format field.
pub open spec fn spec_inode_layout_bits(l: InodeLayout) -> u16 {
    match l {
        InodeLayout::Compact => 0u16,
        InodeLayout::Extended => 1u16,
    }
}

/// The bit pattern a given data layout contributes to a format field.
pub open spec fn spec_data_layout_bits(d: DataLayout) -> u16 {
    match d {
        DataLayout::FlatPlain => 0u16,
        DataLayout::FlatInline => 4u16,
        DataLayout::ChunkBased => 8u16,
    }
}

/// The inode layout encoded in a raw format-field value (bit 0).
pub open spec fn spec_inode_layout_of(v: u16) -> InodeLayout {
    if v & 1 == 0 {
        InodeLayout::Compact
    } else {
        InodeLayout::Extended
    }
}

/// The data layout encoded in a raw format-field value (bits 1 to 3), or an
/// error for the five unassigned patterns.
pub open spec fn spec_data_layout_of(v: u16) -> Result<DataLayout, FormatError> {
    if v & 14 == 0 {
        Ok(DataLayout::FlatPlain)
    } else if v & 14 == 4 {
        Ok(DataLayout::FlatInline)
    } else if v & 14 == 8 {
        Ok(DataLayout::ChunkBased)
    } else {
        Err(FormatError::InvalidDataLayout)
    }
}

/// The two-byte field at the head of every inode, packing the inode layout
/// (bit 0) with the data layout (bits 1 to 3).
#[derive(Clone, Copy, Debug, PartialEq, Eq, Structural)]
pub struct FormatField(pub u16);

impl FormatField {
    /// Pack an inode layout and a data layout into a format field.
    pub fn new(layout: InodeLayout, data_layout: DataLayout) -> (r: FormatField)
        ensures
            r.0 == spec_inode_layout_bits(layout) | spec_data_layout_bits(data_layout),
    {
        let l: u16 = match layout {
            InodeLayout::Compact => 0,
            InodeLayout::Extended => 1,
        };
        let d: u16 = match data_layout {
            DataLayout::FlatPlain => 0,
            DataLayout::FlatInline => 4,
            DataLayout::ChunkBased => 8,
        };
        FormatField(l | d)
    }

    /// The inode layout named by bit 0.
    pub fn inode_layout(&self) -> (r: InodeLayout)
        ensures
            r == spec_inode_layout_of(self.0),
    {
        if self.0 & 1 == 0 {
            InodeLayout::Compact
        } else {
            InodeLayout::Extended
        }
    }

    /// The data layout named by bits 1 to 3, or an error for an unassigned
    /// pattern.
    pub fn data_layout(&self) -> (r: Result<DataLayout, FormatError>)
        ensures
            r == spec_data_layout_of(self.0),
    {
        let bits = self.0 & 14;
        if bits == 0 {
            Ok(DataLayout::FlatPlain)
        } else if bits == 4 {
            Ok(DataLayout::FlatInline)
        } else if bits == 8 {
            Ok(DataLayout::ChunkBased)
        } else {
            Err(FormatError::InvalidDataLayout)
        }
    }
}

impl Default for FormatField {
    /// The sentinel value used by the renderer to recognize unset fields.
    fn default() -> (r: Self)
        ensures
            r.0 == 0xffffu16,
    {
        FormatField(0xffff)
    }
}

/// Decoding a packed format field recovers exactly the pair of layouts that
/// went in.
pub proof fn lemma_format_field_round_trip(layout: InodeLayout, data_layout: DataLayout)
    ensures
        spec_inode_layout_of(
            spec_inode_layout_bits(layout) | spec_data_layout_bits(data_layout),
        ) == layout,
        spec_data_layout_of(
            spec_inode_layout_bits(layout) | spec_data_layout_bits(data_layout),
        ) == Ok::<DataLayout, FormatError>(data_layout),
{
    let l = spec_inode_layout_bits(layout);
    let d = spec_data_layout_bits(data_layout);
    assert((l == 0 || l == 1) && (d == 0 || d == 4 || d == 8) ==> ((l | d) & 1 == l && (l | d)
        & 14 == d)) by (bit_vector);
}

pub const S_IFMT: u16 = 0o170000;
pub const S_IFREG: u16 = 0o100000;
pub const S_IFCHR: u16 = 0o020000;
pub const S_IFDIR: u16 = 0o040000;
pub const S_IFBLK: u16 = 0o060000;
pub const S_IFIFO: u16 = 0o010000;
pub const S_IFLNK: u16 = 0o120000;
pub const S_IFSOCK: u16 = 0o140000;

/// The file type carried by a directory entry.
#[derive(Clone, Copy, Debug, PartialEq, Eq, Structural)]
pub enum FileType {
    Unknown,
    RegularFile,
    Directory,
    CharacterDevice,
    BlockDevice,
    Fifo,
    Socket,
    Symlink,
}

/// The file type named by a directory entry's type byte; bytes outside the
/// assigned table fall back to `Unknown`.
pub open spec fn spec_file_type_of(b: u8) -> FileType {
    if b == 1 {
        FileType::RegularFile
    } else if b == 2 {
        FileType::Directory
    } else if b == 3 {
        FileType::CharacterDevice
    } else if b == 4 {
        FileType::BlockDevice
    } else if b == 5 {
        FileType::Fifo
    } else if b == 6 {
        FileType::Socket
    } else if b == 7 {
        FileType::Symlink
    } else {
        FileType::Unknown
    }
}

/// The type byte a file type is stored as in a directory entry.
pub open spec fn spec_file_type_byte(t: FileType) -> u8 {
    match t {
        FileType::Unknown => 0u8,
        FileType::RegularFile => 1u8,
        FileType::Directory => 2u8,
        FileType::CharacterDevice => 3u8,
        FileType::BlockDevice => 4u8,
        FileType::Fifo => 5u8,
        FileType::Socket => 6u8,
        FileType::Symlink => 7u8,
    }
}

/// The `S_IFMT` mode bits that correspond to a file type.
pub open spec fn spec_to_ifmt(t: FileType) -> u16 {
    match t {
        FileType::Unknown => 0u16,
        FileType::RegularFile => S_IFREG,
        FileType::Directory => S_IFDIR,
        FileType::CharacterDevice => S_IFCHR,
        FileType::BlockDevice => S_IFBLK,
        FileType::Fifo => S_IFIFO,
        FileType::Socket => S_IFSOCK,
        FileType::Symlink => S_IFLNK,
    }
}

impl FileType {
    /// Decode a directory entry's type byte.
    pub fn from_byte(b: u8) -> (r: FileType)
        ensures
            r == spec_file_type_of(b),
    {
        if b == 1 {
            FileType::RegularFile
        } else if b == 2 {
            FileType::Directory
        } else if b == 3 {
            FileType::CharacterDevice
        } else if b == 4 {
            FileType::BlockDevice
        } else if b == 5 {
            FileType::Fifo
        } else if b == 6 {
            FileType::Socket
        } else if b == 7 {
            FileType::Symlink
        } else {
            FileType::Unknown
        }
    }

    /// The `S_IFMT` mode bits for this file type. `Unknown` names no file
    /// type and has no mode bits.
    pub fn to_ifmt(&self) -> (r: u16)
        requires
            !(self is Unknown),
        ensures
            r == spec_to_ifmt(*self),
    {
        match self {
            FileType::RegularFile => S_IFREG,
            FileType::CharacterDevice => S_IFCHR,
            FileType::Directory => S_IFDIR,
            FileType::BlockDevice => S_IFBLK,
            FileType::Fifo => S_IFIFO,
            FileType::Symlink => S_IFLNK,
            FileType::Socket => S_IFSOCK,
            FileType::Unknown => 0,
        }
    }
}

} // verus!
