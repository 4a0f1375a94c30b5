//! Reader and writer for PK2 archives: a single-file format that embeds a
//! virtual filesystem of directories and files inside one host image.
//!
//! The archive image is held in memory as a byte vector. A fixed 256-byte
//! header is followed by 2560-byte index blocks of twenty 128-byte entries
//! each; blocks are chained by absolute offsets and, when the archive is
//! encrypted, each index block is enciphered with Blowfish. File payloads are
//! stored in the clear.

use vstd::prelude::*;

pub mod block;
pub mod codec;
pub mod crypto;
pub mod entry;
pub mod euckr;
pub mod fs;
pub mod header;
pub mod io;
pub mod manager;
pub mod archive;
pub mod path;

verus! {

/// Size in bytes of the fixed archive header.
pub const PK2_HEADER_LEN: usize = 256;

/// Size in bytes of one index block on disk.
pub const PK2_BLOCK_LEN: usize = 2560;

/// Number of entries in one index block.
pub const PK2_ENTRIES_PER_BLOCK: usize = 20;

/// Size in bytes of one entry on disk.
pub const PK2_ENTRY_LEN: usize = 128;

/// Maximum byte length of an entry name after encoding.
pub const PK2_NAME_LEN: usize = 81;

/// Absolute offset of the root block chain: the first block starts right
/// after the header.
pub const PK2_ROOT_BLOCK: u64 = 256;

/// Version constant stored in the header.
pub const PK2_VERSION: u32 = 0x0100_0002;

/// Number of key-check bytes of the encrypted checksum that are stored in
/// and compared against the header.
pub const PK2_CHECKSUM_STORED: usize = 3;

/// Every fallible operation of the library reports one of these kinds.
#[derive(Clone, Copy, Debug, PartialEq, Eq, Structural)]
pub enum Error {
    /// Bad signature, bad entry type byte, or a block chain that cannot be
    /// walked within the size of the archive.
    CorruptedFile,
    /// Header version differs from [`PK2_VERSION`].
    UnsupportedVersion,
    /// Key verification checksum mismatch, or a key the cipher cannot take.
    InvalidKey,
    /// Missing leading `/`, a `..` crossing into a region that does not
    /// exist, or an empty path where a name is required.
    InvalidPath,
    /// A path component or name cannot be carried by the archive's name
    /// encoding.
    NonUnicodePath,
    /// The resolved chain lacks the named entry.
    NotFound,
    /// The terminal name of a `create_file` path is already present.
    AlreadyExists,
    /// A file was expected but the entry is a directory.
    ExpectedFile,
    /// A directory was expected but the entry is a file.
    ExpectedDirectory,
    /// A chain offset points at a chain the manager did not load.
    InvalidChainIndex,
    /// An error of the host environment, reported by callers that marshal
    /// the image from the outside.
    Io,
}

/// Absolute file offset of a chain's first block; the identity of the chain.
#[derive(Clone, Copy, Debug, PartialEq, Eq, Structural)]
pub struct ChainIndex(pub u64);

/// A timestamp as two little-endian halves of a 64-bit count of 100 ns ticks
/// since 1601-01-01 UTC.
#[derive(Clone, Copy, Debug, PartialEq, Eq, Structural)]
pub struct FileTime {
    pub low: u32,
    pub high: u32,
}

} // verus!
