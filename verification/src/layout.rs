//! Fixed parameters of the on-disk layout and of the descriptor table.

use vstd::prelude::*;

verus! {

/// Number of slots in the descriptor table.
pub const MAX_NUM_FD: usize = 64;

/// Open an existing file; fail when no file has the name.
pub const FILE_OPEN_MODE: u32 = 0;

/// Open the file of that name, creating an empty one when none exists.
pub const FILE_OPEN_CREATE_MODE: u32 = 1;

/// Size in bytes of one block of the device.
pub const STORAGE_BLOCK_SIZE: usize = 512;

/// Number of blocks, starting at block 0, that hold the directory.
pub const DIR_DATA_NUM_BLOCKS: usize = 2;

/// Size in bytes of the directory region.
pub const DIR_DATA_SIZE: usize = 1024;

/// Longest file name, in bytes, that the directory accepts.
pub const MAX_FILENAME_SIZE: usize = 256;

/// Offset of the first record in the directory region: the signature takes
/// four bytes and the file count two.
pub const DIR_HEADER_SIZE: usize = 6;

/// Bytes that a record takes besides its name: two for the name's length, one
/// terminator, and four each for start block, block count and size.
pub const DIR_RECORD_OVERHEAD: usize = 15;

/// The four bytes that open a formatted directory region.
pub open spec fn dir_signature() -> Seq<u8> {
    seq![0x24u8, 0x25u8, 0x5eu8, 0x26u8]
}

/// The directory region spans whole blocks, and the descriptor bitmap whole
/// bytes.
pub proof fn lemma_layout_is_aligned()
    ensures
        DIR_DATA_SIZE == DIR_DATA_NUM_BLOCKS * STORAGE_BLOCK_SIZE,
        MAX_NUM_FD % 8 == 0,
{
}

} // verus!
