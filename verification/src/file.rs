//! The record that the filesystem keeps of each file.

use vstd::prelude::*;
use crate::layout::STORAGE_BLOCK_SIZE;
use crate::layout::MAX_FILENAME_SIZE;
use crate::layout::DIR_RECORD_OVERHEAD;

verus! {

/// One file: its name, the run of blocks that it owns, its length in bytes,
/// the place of its record in the directory region, and whether it is open.
pub struct File {
    pub filename: Vec<u8>,
    pub start_block: u32,
    pub num_blocks: u32,
    pub size: u32,
    pub dir_data_off: u32,
    pub opened: bool,
}

/// A file record as a mathematical value.
pub struct FileView {
    pub name: Seq<u8>,
    pub start_block: nat,
    pub num_blocks: nat,
    pub size: nat,
    pub dir_data_off: nat,
    pub opened: bool,
}

impl FileView {
    /// The first block after the file's extent.
    pub open spec fn end_block(self) -> nat {
        self.start_block + self.num_blocks
    }

    /// Whether the file's extent holds block `b`.
    pub open spec fn claims(self, b: nat) -> bool {
        self.start_block <= b < self.end_block()
    }

    /// Number of bytes that the file's blocks can hold.
    pub open spec fn capacity(self) -> nat {
        self.num_blocks * STORAGE_BLOCK_SIZE as nat
    }

    /// Number of bytes of the file's record in the directory region.
    pub open spec fn slot_len(self) -> nat {
        self.name.len() + DIR_RECORD_OVERHEAD as nat
    }

    /// The first byte after the file's record in the directory region.
    pub open spec fn slot_end(self) -> nat {
        self.dir_data_off + self.slot_len()
    }

    /// The numbers of the record fit their fields, and the name is no longer
    /// than the directory accepts.
    pub open spec fn wf(self) -> bool {
        &&& self.name.len() <= MAX_FILENAME_SIZE
        &&& self.start_block <= u32::MAX
        &&& self.num_blocks <= u32::MAX
        &&& self.size <= u32::MAX
        &&& self.dir_data_off <= u32::MAX
    }

    /// The same record, closed.
    pub open spec fn closed(self) -> FileView {
        FileView { opened: false, ..self }
    }

    /// The same record with another extent and size.
    pub open spec fn resized(self, start_block: nat, num_blocks: nat, size: nat) -> FileView {
        FileView { start_block, num_blocks, size, ..self }
    }
}

impl View for File {
    type V = FileView;

    open spec fn view(&self) -> FileView {
        FileView {
            name: self.filename@,
            start_block: self.start_block as nat,
            num_blocks: self.num_blocks as nat,
            size: self.size as nat,
            dir_data_off: self.dir_data_off as nat,
            opened: self.opened,
        }
    }
}

/// The records of a list of files, in the list's order.
pub open spec fn records(files: Seq<File>) -> Seq<FileView> {
    Seq::new(files.len(), |i: int| files[i]@)
}

} // verus!
