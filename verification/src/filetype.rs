//! Classification of payload entries by their raw mode bits.

use vstd::prelude::*;

verus! {

/// The POSIX file-type mask: the bits of a mode value that encode the
/// kind of filesystem node.
pub const FILE_TYPE_MASK: u32 = 0o170000;

/// Semantic tag for one payload entry, derived from its mode bits.
#[derive(Clone, Copy, Debug, PartialEq, Eq, Structural)]
pub enum FileType {
    Directory,
    Regular,
    Symlink,
    Socket,
    BlockDevice,
    CharacterDevice,
    Fifo,
    /// A type-bit pattern outside the named kinds; carries the masked bits.
    Unknown(u32),
}

/// What `FileType::from_mode` returns: a total function of the mode bits.
pub open spec fn spec_classify(mode: u32) -> FileType {
    let masked = mode & FILE_TYPE_MASK;
    if masked == 0o040000u32 {
        FileType::Directory
    } else if masked == 0o100000u32 {
        FileType::Regular
    } else if masked == 0o120000u32 {
        FileType::Symlink
    } else if masked == 0o140000u32 {
        FileType::Socket
    } else if masked == 0o060000u32 {
        FileType::BlockDevice
    } else if masked == 0o020000u32 {
        FileType::CharacterDevice
    } else if masked == 0o010000u32 {
        FileType::Fifo
    } else {
        FileType::Unknown(masked)
    }
}

impl FileType {
    /// Classify a raw mode value by its file-type bits.
    pub fn from_mode(mode: u32) -> (t: FileType)
        ensures
            t == spec_classify(mode),
    {
        let masked = mode & FILE_TYPE_MASK;
        match masked {
            0o040000u32 => FileType::Directory,
            0o100000u32 => FileType::Regular,
            0o120000u32 => FileType::Symlink,
            0o140000u32 => FileType::Socket,
            0o060000u32 => FileType::BlockDevice,
            0o020000u32 => FileType::CharacterDevice,
            0o010000u32 => FileType::Fifo,
            _ => FileType::Unknown(masked),
        }
    }
}

/// Classification is total (every mode has exactly one tag, `spec_classify`
/// being a function) and depends only on the file-type bits: masking a mode
/// with `FILE_TYPE_MASK` before classifying changes nothing.
pub proof fn lemma_classify_mask_idempotent(mode: u32)
    ensures
        spec_classify(mode & FILE_TYPE_MASK) == spec_classify(mode),
{
    assert((mode & 0o170000u32) & 0o170000u32 == mode & 0o170000u32) by (bit_vector);
}

} // verus!
