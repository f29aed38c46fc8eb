//! The filesystem as a mathematical value, and each operation as a function
//! on such values.
//!
//! The contracts of the engine refer to this model: after an operation the
//! engine's state is the state that the model's function yields, and the
//! result is the model's result.

use vstd::prelude::*;
use crate::layout::MAX_NUM_FD;
use crate::layout::FILE_OPEN_MODE;
use crate::layout::FILE_OPEN_CREATE_MODE;
use crate::layout::DIR_DATA_NUM_BLOCKS;
use crate::layout::DIR_HEADER_SIZE;
use crate::layout::dir_signature;
use crate::error::FsError;
use crate::codec::splice;
use crate::disk::DiskView;
use crate::file::FileView;
use crate::block_io::byte_address;
use crate::directory::laid_out;
use crate::directory::can_add_record;
use crate::directory::with_record_added;
use crate::directory::directory_image;
use crate::directory::declared_count;
use crate::directory::decode_records;
use crate::directory::decode_cursor;
use crate::growth::growth_plan;
use crate::growth::extents_disjoint;
use crate::directory::in_sync;
use crate::growth::zero_filled;
use crate::growth::with_record_rewritten;

verus! {

/// The state of a filesystem.
pub struct FsView {
    /// The records of all files, in the order in which they were registered.
    /// The file at index `i` has the identity `i + 1`.
    pub files: Seq<FileView>,
    /// For each descriptor the identity of the file that it stands for, or 0
    /// where the descriptor is free.
    pub file_array: Seq<nat>,
    /// The directory region as it is held in memory.
    pub dir_data: Seq<u8>,
    /// Where in the region the next record goes.
    pub dir_data_ptr: nat,
    /// Number of blocks of the partition.
    pub partition_num_blocks: nat,
    /// The device.
    pub disk: DiskView,
}

/// Index of the first of the first `n` files that has the name, if any has.
pub open spec fn lookup_upto(files: Seq<FileView>, name: Seq<u8>, n: nat) -> Option<int>
    decreases n,
{
    if n == 0 {
        None
    } else {
        match lookup_upto(files, name, (n - 1) as nat) {
            Some(i) => Some(i),
            None => if files[n - 1].name == name {
                Some(n - 1)
            } else {
                None
            },
        }
    }
}

/// The lowest free descriptor below `n` that can be handed out, if there is
/// one. Descriptors 0 and 1 are never handed out.
pub open spec fn lowest_free_upto(file_array: Seq<nat>, n: nat) -> Option<nat>
    decreases n,
{
    if n <= 2 {
        None
    } else {
        match lowest_free_upto(file_array, (n - 1) as nat) {
            Some(fd) => Some(fd),
            None => if file_array[n - 1] == 0 {
                Some((n - 1) as nat)
            } else {
                None
            },
        }
    }
}

/// What `lookup_upto` finds is the first file of that name, and it finds
/// nothing only where no file has the name.
pub proof fn lemma_lookup(files: Seq<FileView>, name: Seq<u8>, n: nat)
    requires
        n <= files.len(),
    ensures
        match lookup_upto(files, name, n) {
            Some(i) => 0 <= i < n && files[i].name == name && forall|j: int|
                0 <= j < i ==> (#[trigger] files[j]).name != name,
            None => forall|j: int| 0 <= j < n ==> (#[trigger] files[j]).name != name,
        },
    decreases n,
{
    if n > 0 {
        lemma_lookup(files, name, (n - 1) as nat);
    }
}

/// What `lowest_free_upto` finds is the lowest free descriptor from 2 on, and
/// it finds nothing only where none is free.
pub proof fn lemma_lowest_free(file_array: Seq<nat>, n: nat)
    ensures
        match lowest_free_upto(file_array, n) {
            Some(fd) => 2 <= fd < n && file_array[fd as int] == 0 && forall|k: int|
                2 <= k < fd ==> #[trigger] file_array[k] != 0,
            None => forall|k: int| 2 <= k < n ==> #[trigger] file_array[k] != 0,
        },
    decreases n,
{
    if n > 2 {
        lemma_lowest_free(file_array, (n - 1) as nat);
    }
}

impl FsView {
    /// Index of the first file that has the name, if any has.
    pub open spec fn lookup(self, name: Seq<u8>) -> Option<int> {
        lookup_upto(self.files, name, self.files.len())
    }

    /// The lowest descriptor that can be handed out, if one is free.
    pub open spec fn lowest_free_fd(self) -> Option<nat> {
        lowest_free_upto(self.file_array, MAX_NUM_FD as nat)
    }

    /// Whether `fd` stands for an open file.
    pub open spec fn is_open(self, fd: u32) -> bool {
        0 < fd < MAX_NUM_FD && self.file_array[fd as int] != 0
    }

    /// Index of the file that the open descriptor `fd` stands for.
    pub open spec fn index_of(self, fd: u32) -> int {
        self.file_array[fd as int] - 1
    }

    /// The record of the file that the open descriptor `fd` stands for.
    pub open spec fn file_of(self, fd: u32) -> FileView {
        self.files[self.index_of(fd)]
    }

    /// Whether the descriptor `fd` stands for the file at index `i`.
    pub open spec fn stands_for(self, fd: int, i: int) -> bool {
        0 <= fd < MAX_NUM_FD && self.file_array[fd] == i + 1
    }

    /// Whether some descriptor stands for the file at index `i`.
    pub open spec fn has_descriptor(self, i: int) -> bool {
        exists|fd: int| #[trigger] self.stands_for(fd, i)
    }

    /// The descriptor `fd` is free, or it stands for a file that is
    /// registered and open.
    pub open spec fn bound_to_open_file(self, fd: int) -> bool {
        self.file_array[fd] != 0 ==> self.file_array[fd] <= self.files.len()
            && self.files[self.file_array[fd] - 1].opened
    }

    /// The descriptors `fd1` and `fd2` do not stand for the same file.
    pub open spec fn bound_apart(self, fd1: int, fd2: int) -> bool {
        fd1 != fd2 && self.file_array[fd1] != 0 ==> self.file_array[fd1] != self.file_array[fd2]
    }

    /// The file at index `i` is closed, or a descriptor stands for it.
    pub open spec fn open_is_bound(self, i: int) -> bool {
        self.files[i].opened ==> self.has_descriptor(i)
    }

    /// The file at index `i` is closed, or the file at index `j` has another
    /// name.
    pub open spec fn other_name_if_open(self, i: int, j: int) -> bool {
        self.files[i].opened ==> self.files[j].name != self.files[i].name
    }

    /// The descriptor table is in order: descriptors 0 and 1 are never
    /// bound; every bound descriptor stands for an open file, no two for the
    /// same, and every open file has one; and a file that is open is the
    /// first of its name.
    pub open spec fn table_wf(self) -> bool {
        &&& self.file_array.len() == MAX_NUM_FD
        &&& self.file_array[0] == 0
        &&& self.file_array[1] == 0
        &&& forall|fd: int| 0 <= fd < MAX_NUM_FD ==> #[trigger] self.bound_to_open_file(fd)
        &&& forall|fd1: int, fd2: int|
            0 <= fd1 < MAX_NUM_FD && 0 <= fd2 < MAX_NUM_FD ==> #[trigger] self.bound_apart(
                fd1,
                fd2,
            )
        &&& forall|i: int| 0 <= i < self.files.len() ==> #[trigger] self.open_is_bound(i)
        &&& forall|i: int, j: int|
            0 <= j < i < self.files.len() ==> #[trigger] self.other_name_if_open(i, j)
    }

    /// What holds of every state that the engine reaches: the device is well
    /// formed, the region carries the signature, the records lie in it in
    /// order, and the descriptor table is in order.
    pub open spec fn wf(self) -> bool {
        &&& self.disk.wf()
        &&& self.partition_num_blocks <= u32::MAX
        &&& self.dir_data.subrange(0, 4) == dir_signature()
        &&& laid_out(self.dir_data, self.dir_data_ptr, self.files)
        &&& self.table_wf()
    }

    /// The records obey the rules of the data model: no two files own the
    /// same block, no file is longer than its blocks hold, and every extent
    /// lies behind the directory region and within the partition.
    pub open spec fn consistent(self) -> bool {
        &&& extents_disjoint(self.files)
        &&& forall|i: int|
            0 <= i < self.files.len() ==> (#[trigger] self.files[i]).size
                <= self.files[i].capacity()
        &&& forall|i: int|
            0 <= i < self.files.len() && (#[trigger] self.files[i]).num_blocks > 0
                ==> DIR_DATA_NUM_BLOCKS <= self.files[i].start_block && self.files[i].end_block()
                <= self.partition_num_blocks
    }

    /// What is registered can be found again after a restart: the region
    /// holds exactly the records, and the device has the blocks that the
    /// region is written to.
    pub open spec fn durable(self) -> bool {
        &&& in_sync(self.dir_data, self.dir_data_ptr, self.files)
        &&& self.disk.num_blocks() >= DIR_DATA_NUM_BLOCKS
    }

    /// The descriptors that stand for an open file.
    pub open spec fn open_descriptors(self) -> Set<int> {
        Set::new(|fd: int| 0 <= fd < MAX_NUM_FD && self.file_array[fd] != 0)
    }

    /// The state after an empty file of that name was registered: its record
    /// is added to the region at the cursor, and the region is written to the
    /// device.
    pub open spec fn with_new_file(self, name: Seq<u8>) -> FsView {
        let f = FileView {
            name,
            start_block: 0,
            num_blocks: 0,
            size: 0,
            dir_data_off: self.dir_data_ptr,
            opened: false,
        };
        let dir_data = with_record_added(self.dir_data, self.dir_data_ptr, f);
        FsView {
            files: self.files.push(f),
            dir_data,
            dir_data_ptr: self.dir_data_ptr + f.slot_len(),
            disk: self.disk.store_clamped(0, dir_data),
            ..self
        }
    }

    /// Gives the file at index `i` the lowest free descriptor and marks it
    /// open. Fails with `Exhausted`, changing nothing, when no descriptor is
    /// free.
    pub open spec fn bind(self, i: int) -> (FsView, Result<u32, FsError>) {
        match self.lowest_free_fd() {
            None => (self, Err(FsError::Exhausted)),
            Some(fd) => (
                FsView {
                    files: self.files.update(i, FileView { opened: true, ..self.files[i] }),
                    file_array: self.file_array.update(fd as int, (i + 1) as nat),
                    ..self
                },
                Ok(fd as u32),
            ),
        }
    }

    /// Opening the file of that name. An unknown mode is refused with
    /// `InvalidArgument`. The first file of that name is taken: it is refused
    /// with `AlreadyOpen` when it is open. Where no file has the name, the
    /// plain mode fails with `NotFound`, and the creating mode registers an
    /// empty file, or fails with `CapacityExceeded` when the region cannot
    /// take its record. Then the file gets the lowest free descriptor; when
    /// none is free the call fails with `Exhausted`, and a file that was
    /// just registered stays.
    pub open spec fn open_file(self, name: Seq<u8>, mode: u32) -> (FsView, Result<u32, FsError>) {
        if mode != FILE_OPEN_MODE && mode != FILE_OPEN_CREATE_MODE {
            (self, Err(FsError::InvalidArgument))
        } else {
            match self.lookup(name) {
                Some(i) => if self.files[i].opened {
                    (self, Err(FsError::AlreadyOpen))
                } else {
                    self.bind(i)
                },
                None => if mode == FILE_OPEN_MODE {
                    (self, Err(FsError::NotFound))
                } else if !can_add_record(self.dir_data, self.dir_data_ptr, name.len()) {
                    (self, Err(FsError::CapacityExceeded))
                } else {
                    self.with_new_file(name).bind(self.files.len() as int)
                },
            }
        }
    }

    /// Closing a descriptor. A descriptor that does not stand for an open
    /// file is refused with `InvalidArgument`, and nothing changes.
    /// Otherwise the file is marked closed and the descriptor is free again.
    pub open spec fn close_file(self, fd: u32) -> (FsView, Result<(), FsError>) {
        if !self.is_open(fd) {
            (self, Err(FsError::InvalidArgument))
        } else {
            (
                FsView {
                    files: self.files.update(
                        self.index_of(fd),
                        FileView { opened: false, ..self.file_of(fd) },
                    ),
                    file_array: self.file_array.update(fd as int, 0),
                    ..self
                },
                Ok(()),
            )
        }
    }

    /// Number of bytes that a transfer of `len` bytes at `offset` of the
    /// file `f` moves: what is asked for, cut off where the file ends and
    /// where the device ends.
    pub open spec fn transfer_len(self, f: FileView, len: nat, offset: nat) -> nat {
        if offset >= f.size {
            0
        } else {
            let want = if len <= f.size - offset {
                len
            } else {
                (f.size - offset) as nat
            };
            self.disk.bytes_within(byte_address(f.start_block, offset), want)
        }
    }

    /// Reading into a buffer that holds `buf`. A descriptor that does not
    /// stand for an open file is refused with `InvalidArgument`. Otherwise
    /// the bytes of the file from `offset` on are put at the front of the
    /// buffer, as many as the buffer takes, the file has and the device
    /// yields; the rest of the buffer stays as it is.
    pub open spec fn read_file(self, fd: u32, buf: Seq<u8>, offset: u32) -> (
        Seq<u8>,
        Result<u32, FsError>,
    ) {
        if !self.is_open(fd) {
            (buf, Err(FsError::InvalidArgument))
        } else {
            let f = self.file_of(fd);
            let n = self.transfer_len(f, buf.len(), offset as nat);
            (
                splice(buf, 0, self.disk.load(byte_address(f.start_block, offset as nat), n)),
                Ok(n as u32),
            )
        }
    }

    /// The state after the file at index `idx` was asked to grow to `size`
    /// bytes: the state as it is where the partition has no room; else the
    /// new blocks are zeroed, the record has the new extent and size and is
    /// rewritten in the region, and the region is written to the device.
    pub open spec fn grown(self, idx: int, size: nat) -> FsView {
        match growth_plan(self.files, idx, size, self.partition_num_blocks) {
            None => self,
            Some(plan) => {
                let f = self.files[idx].resized(plan.start_block, plan.num_blocks, size);
                let dir_data = with_record_rewritten(self.dir_data, f);
                FsView {
                    files: self.files.update(idx, f),
                    dir_data,
                    disk: zero_filled(self.disk, plan.fill_start, plan.fill_count).store_clamped(
                        0,
                        dir_data,
                    ),
                    ..self
                }
            },
        }
    }

    /// The state after the growth that a write of `len` bytes at `offset` of
    /// the file at index `idx` asks for: none where the write ends within the
    /// file, and none where it would end beyond the largest size that a
    /// record can hold.
    pub open spec fn grown_for_write(self, idx: int, len: nat, offset: nat) -> FsView {
        if offset + len <= self.files[idx].size || offset + len > u32::MAX {
            self
        } else {
            self.grown(idx, offset + len)
        }
    }

    /// Writing `data` at `offset`. A descriptor that does not stand for an
    /// open file, and an offset beyond the end of the file, are refused with
    /// `InvalidArgument`. A write that ends beyond the end of the file asks
    /// the file to grow first. Then the bytes are stored, as many as the
    /// file has room for and the device takes. Where the file could not grow
    /// and has no room for even one byte, the call fails with `Exhausted`.
    pub open spec fn write_file(self, fd: u32, data: Seq<u8>, offset: u32) -> (
        FsView,
        Result<u32, FsError>,
    ) {
        if !self.is_open(fd) {
            (self, Err(FsError::InvalidArgument))
        } else if offset > self.file_of(fd).size {
            (self, Err(FsError::InvalidArgument))
        } else if data.len() == 0 {
            (self, Ok(0))
        } else {
            let idx = self.index_of(fd);
            let grown = self.grown_for_write(idx, data.len(), offset as nat);
            let f = grown.files[idx];
            if offset >= f.size {
                (self, Err(FsError::Exhausted))
            } else {
                let n = grown.transfer_len(f, data.len(), offset as nat);
                (
                    FsView {
                        disk: grown.disk.store(
                            byte_address(f.start_block, offset as nat),
                            data.subrange(0, n as int),
                        ),
                        ..grown
                    },
                    Ok(n as u32),
                )
            }
        }
    }

    /// The device that shutting down hands back: the region was written to
    /// it once more.
    pub open spec fn shut_down(self) -> DiskView {
        self.disk.store_clamped(0, self.dir_data)
    }
}

/// A table in which no descriptor is bound.
pub open spec fn no_descriptors() -> Seq<nat> {
    Seq::new(MAX_NUM_FD as nat, |fd: int| 0nat)
}

/// The region that formatting makes of what was read: the signature and a
/// count of zero at its front.
pub open spec fn formatted(image: Seq<u8>) -> Seq<u8> {
    splice(image, 0, dir_signature() + seq![0u8, 0u8])
}

/// The state in which a filesystem starts on a device. The region is read
/// from the device. Where it carries the signature, the records are decoded
/// from it, all of them closed. Where it does not, the region is formatted
/// and written to the device, and there are no files.
pub open spec fn initialized(disk: DiskView, partition_num_blocks: nat) -> FsView {
    let image = directory_image(disk);
    if image.subrange(0, 4) == dir_signature() {
        FsView {
            files: decode_records(image, DIR_HEADER_SIZE as int, declared_count(image)),
            file_array: no_descriptors(),
            dir_data: image,
            dir_data_ptr: decode_cursor(
                image,
                DIR_HEADER_SIZE as int,
                declared_count(image),
            ) as nat,
            partition_num_blocks,
            disk,
        }
    } else {
        FsView {
            files: Seq::empty(),
            file_array: no_descriptors(),
            dir_data: formatted(image),
            dir_data_ptr: DIR_HEADER_SIZE as nat,
            partition_num_blocks,
            disk: disk.store_clamped(0, formatted(image)),
        }
    }
}

} // verus!
