//! The filesystem engine: the registry of files, the descriptor table, the
//! directory region and the device, and the operations on them.

use vstd::prelude::*;
use vstd::slice::slice_to_vec;
use crate::layout::MAX_NUM_FD;
use crate::layout::FILE_OPEN_MODE;
use crate::layout::FILE_OPEN_CREATE_MODE;
use crate::layout::DIR_DATA_SIZE;
use crate::layout::DIR_HEADER_SIZE;
use crate::layout::dir_signature;
use crate::error::FsError;
use crate::codec::splice;
use crate::codec::copy_into;
use crate::codec::bytes_eq;
use crate::disk::Disk;
use crate::file::File;
use crate::file::FileView;
use crate::file::records;
use crate::fd_table::bit_is_set;
use crate::fd_table::new_fd_bitmap;
use crate::fd_table::get_unused_fd;
use crate::fd_table::mark_fd_unused;
use crate::fd_table::lemma_initial_bitmap;
use crate::block_io::byte_address;
use crate::block_io::read_file_bytes;
use crate::block_io::write_file_bytes;
use crate::directory::add_file_to_directory;
use crate::directory::decode_directory;
use crate::directory::flush_dir_data_to_storage;
use crate::directory::read_dir_data_from_storage;
use crate::growth::expand_file_size;
use crate::model::FsView;
use crate::invariants::lemma_open_descriptor;
use crate::model::initialized;
use crate::model::formatted;
use crate::model::no_descriptors;
use crate::model::lookup_upto;
use crate::model::lemma_lookup;
use crate::model::lemma_lowest_free;
use crate::invariants::lemma_open_file_wf;
use crate::invariants::lemma_close_file_wf;
use crate::invariants::lemma_write_file_wf;
use crate::invariants::lemma_store_clamped_wf;
use crate::invariants::lemma_with_new_file_wf;
use crate::directory::can_add_record;

verus! {

/// A filesystem on a device. It is made by `initialize_file_system`, which
/// takes the device, and ended by `close_file_system`, which hands the
/// device back.
pub struct FileSystem {
    file_array: Vec<u32>,
    fd_bitmap: Vec<u8>,
    files: Vec<File>,
    dir_data: Vec<u8>,
    dir_data_ptr: usize,
    partition_num_blocks: u32,
    disk: Disk,
}

/// Whether the region opens with the signature.
fn has_signature(dir_data: &Vec<u8>) -> (r: bool)
    requires
        dir_data@.len() == DIR_DATA_SIZE,
    ensures
        r == (dir_data@.subrange(0, 4) == dir_signature()),
{
    let r: bool = dir_data[0] == 0x24 && dir_data[1] == 0x25 && dir_data[2] == 0x5e && dir_data[3]
        == 0x26;
    proof {
        if r {
            assert(dir_data@.subrange(0, 4) =~= dir_signature());
        } else {
            assert(dir_data@.subrange(0, 4)[0] == dir_data@[0]);
            assert(dir_data@.subrange(0, 4)[1] == dir_data@[1]);
            assert(dir_data@.subrange(0, 4)[2] == dir_data@[2]);
            assert(dir_data@.subrange(0, 4)[3] == dir_data@[3]);
        }
    }
    r
}

/// Index of the first file that has the name, if any has.
fn find_file(files: &Vec<File>, filename: &[u8]) -> (r: Option<usize>)
    ensures
        match r {
            Some(i) => lookup_upto(records(files@), filename@, files@.len()) == Some(i as int),
            None => lookup_upto(records(files@), filename@, files@.len()) is None,
        },
{
    let mut i: usize = 0;
    while i < files.len()
        invariant
            i <= files@.len(),
            lookup_upto(records(files@), filename@, i as nat) is None,
        decreases files@.len() - i,
    {
        if bytes_eq(files[i].filename.as_slice(), filename) {
            proof {
                lemma_found_stays(records(files@), filename@, i as int, files@.len());
            }
            return Some(i);
        }
        i += 1;
    }
    None
}

/// Once a file of the name is found, looking further finds the same file.
proof fn lemma_found_stays(files: Seq<FileView>, name: Seq<u8>, i: int, n: nat)
    requires
        0 <= i < n <= files.len(),
        lookup_upto(files, name, i as nat) is None,
        files[i].name == name,
    ensures
        lookup_upto(files, name, n) == Some(i),
    decreases n,
{
    if n > i + 1 {
        lemma_found_stays(files, name, i, (n - 1) as nat);
    }
}

impl FileSystem {
    /// The state of the filesystem.
    pub closed spec fn view(&self) -> FsView {
        FsView {
            files: records(self.files@),
            file_array: Seq::new(MAX_NUM_FD as nat, |fd: int| self.file_array@[fd] as nat),
            dir_data: self.dir_data@,
            dir_data_ptr: self.dir_data_ptr as nat,
            partition_num_blocks: self.partition_num_blocks as nat,
            disk: self.disk@,
        }
    }

    /// The state is well formed, and the descriptor bitmap agrees with the
    /// descriptor table: bit 0 is taken, and each other bit is taken exactly
    /// when its descriptor is bound.
    pub closed spec fn wf(&self) -> bool {
        &&& self.disk.wf()
        &&& self.file_array@.len() == MAX_NUM_FD
        &&& self.fd_bitmap@.len() == MAX_NUM_FD / 8
        &&& forall|k: int|
            0 <= k < MAX_NUM_FD ==> #[trigger] bit_is_set(self.fd_bitmap@, k) == (k == 0 || (k + 1
                < MAX_NUM_FD && self.file_array@[k + 1] != 0))
        &&& self@.wf()
    }

    /// A well-formed filesystem has a well-formed state.
    pub proof fn lemma_view_wf(&self)
        requires
            self.wf(),
        ensures
            self@.wf(),
    {
    }

    /// Starts a filesystem on `disk`, for a partition of
    /// `partition_num_blocks` blocks. The directory region is read from the
    /// first blocks of the device. Where it carries the signature, the files
    /// that it records are registered, all closed; decoding stops without
    /// failing at the first record that cannot be taken. Where it does not,
    /// the region is formatted and written to the device.
    pub fn initialize_file_system(disk: Disk, partition_num_blocks: u32) -> (fs: FileSystem)
        requires
            disk.wf(),
        ensures
            fs.wf(),
            fs@ == initialized(disk@, partition_num_blocks as nat),
    {
        let mut disk = disk;
        let fd_bitmap: Vec<u8> = new_fd_bitmap();
        let file_array: Vec<u32> = vec![0u32; MAX_NUM_FD];
        let mut dir_data: Vec<u8> = read_dir_data_from_storage(&disk);
        let ghost start = disk@;
        proof {
            disk.lemma_view_wf();
        }
        let fs = if has_signature(&dir_data) {
            let (files, dir_data_ptr) = decode_directory(&dir_data);
            FileSystem {
                file_array,
                fd_bitmap,
                files,
                dir_data,
                dir_data_ptr,
                partition_num_blocks,
                disk,
            }
        } else {
            let mut header: Vec<u8> = Vec::new();
            header.push(0x24u8);
            header.push(0x25u8);
            header.push(0x5eu8);
            header.push(0x26u8);
            header.push(0u8);
            header.push(0u8);
            assert(header@ =~= dir_signature() + seq![0u8, 0u8]);
            copy_into(dir_data.as_mut_slice(), 0, header.as_slice());
            flush_dir_data_to_storage(&dir_data, &mut disk);
            proof {
                assert(dir_data@.subrange(0, 4) =~= dir_signature());
                lemma_store_clamped_wf(start, 0, dir_data@);
            }
            let files: Vec<File> = Vec::new();
            assert(records(files@) =~= Seq::<FileView>::empty());
            FileSystem {
                file_array,
                fd_bitmap,
                files,
                dir_data,
                dir_data_ptr: DIR_HEADER_SIZE,
                partition_num_blocks,
                disk,
            }
        };
        proof {
            assert(fs@.file_array =~= no_descriptors());
            assert forall|k: int| 0 <= k < MAX_NUM_FD implies #[trigger] bit_is_set(
                fs.fd_bitmap@,
                k,
            ) == (k == 0 || (k + 1 < MAX_NUM_FD && fs.file_array@[k + 1] != 0)) by {
                lemma_initial_bitmap(k);
            }
            fs.disk.lemma_view_wf();
            assert forall|i: int| 0 <= i < fs@.files.len() implies !(#[trigger] fs@.files[i]).opened by {
                assert(fs@.files[i] == fs.files@[i]@);
            }
        }
        fs
    }

    /// Ends the filesystem: writes the directory region to the device once
    /// more and hands the device back.
    pub fn close_file_system(self) -> (disk: Disk)
        requires
            self.wf(),
        ensures
            disk.wf(),
            disk@ == self@.shut_down(),
    {
        let mut fs = self;
        flush_dir_data_to_storage(&fs.dir_data, &mut fs.disk);
        fs.disk
    }

    /// Closes the descriptor `fd`. Fails with `InvalidArgument`, changing
    /// nothing, when `fd` does not stand for an open file.
    pub fn file_system_close_file(&mut self, fd: u32) -> (r: Result<(), FsError>)
        requires
            old(self).wf(),
        ensures
            final(self).wf(),
            (final(self)@, r) == old(self)@.close_file(fd),
    {
        let slot: usize = fd as usize;
        if slot == 0 || slot >= MAX_NUM_FD {
            return Err(FsError::InvalidArgument);
        }
        let ino: u32 = self.file_array[slot];
        if ino == 0 {
            return Err(FsError::InvalidArgument);
        }
        proof {
            assert(self@.file_array[slot as int] == ino);
            lemma_open_descriptor(self@, fd);
        }
        let idx: usize = (ino - 1) as usize;
        self.files[idx].opened = false;
        self.file_array[slot] = 0;
        let _ = mark_fd_unused(&mut self.fd_bitmap, fd);
        proof {
            let v = old(self)@;
            let w = v.close_file(fd).0;
            lemma_close_file_wf(v, fd);
            assert(self@.file_array =~= w.file_array);
            assert forall|i: int| 0 <= i < self.files@.len() implies records(self.files@)[i]
                == w.files[i] by {
                if i != idx {
                    assert(self.files@[i] == old(self).files@[i]);
                }
                assert(v.files[i] == old(self).files@[i]@);
            }
            assert(self@.files =~= w.files);
            assert(self@ == w);
        }
        Ok(())
    }

    /// Registers `file` as the last file and returns its identity, which is
    /// its place in the registry counted from 1.
    fn add_file_to_list(&mut self, file: File) -> (ino: u32)
        requires
            old(self).files@.len() < u32::MAX,
        ensures
            ino == old(self).files@.len() + 1,
            final(self).files@ == old(self).files@.push(file),
            final(self).file_array == old(self).file_array,
            final(self).fd_bitmap == old(self).fd_bitmap,
            final(self).dir_data == old(self).dir_data,
            final(self).dir_data_ptr == old(self).dir_data_ptr,
            final(self).partition_num_blocks == old(self).partition_num_blocks,
            final(self).disk == old(self).disk,
    {
        self.files.push(file);
        self.files.len() as u32
    }

    /// Creates an empty file named `filename`: adds its record to the
    /// directory region and registers it. Returns the file's identity. Fails
    /// with `CapacityExceeded`, changing nothing, when the region cannot
    /// take the record.
    fn create_file(&mut self, filename: &[u8]) -> (r: Result<u32, FsError>)
        requires
            old(self).wf(),
        ensures
            final(self).wf(),
            r is Ok <==> can_add_record(
                old(self)@.dir_data,
                old(self)@.dir_data_ptr,
                filename@.len(),
            ),
            r matches Ok(ino) ==> ino == old(self)@.files.len() + 1 && final(self)@ == old(
                self,
            )@.with_new_file(filename@),
            r matches Err(e) ==> e == FsError::CapacityExceeded && final(self)@ == old(self)@,
    {
        let ghost v = old(self)@;
        let mut file = File {
            filename: slice_to_vec(filename),
            start_block: 0,
            num_blocks: 0,
            size: 0,
            dir_data_off: 0,
            opened: false,
        };
        match add_file_to_directory(
            &mut self.dir_data,
            &mut self.dir_data_ptr,
            &mut file,
            &mut self.disk,
        ) {
            Err(e) => {
                return Err(e);
            },
            Ok(()) => {},
        }
        let ino: u32 = self.add_file_to_list(file);
        proof {
            assert(self@.files =~= v.with_new_file(filename@).files);
            assert(self@.file_array =~= v.file_array);
            assert(self@ == v.with_new_file(filename@));
            lemma_with_new_file_wf(v, filename@);
        }
        Ok(ino)
    }

    /// Gives the closed file with the identity `ino` the lowest free
    /// descriptor and marks it open. Fails with `Exhausted`, changing
    /// nothing, when no descriptor is free.
    fn bind_descriptor(&mut self, ino: u32) -> (r: Result<u32, FsError>)
        requires
            old(self).wf(),
            1 <= ino <= old(self)@.files.len(),
            !old(self)@.files[ino - 1].opened,
            old(self)@.bind(ino - 1).0.wf(),
        ensures
            final(self).wf(),
            (final(self)@, r) == old(self)@.bind(ino - 1),
    {
        let ghost w = old(self)@;
        let idx: usize = (ino - 1) as usize;
        proof {
            lemma_lowest_free(w.file_array, MAX_NUM_FD as nat);
        }
        let fd: u32 = match get_unused_fd(&mut self.fd_bitmap) {
            Ok(fd) => fd,
            Err(e) => {
                proof {
                    assert(bit_is_set(self.fd_bitmap@, MAX_NUM_FD - 1));
                }
                return Err(e);
            },
        };
        let ghost taken = self.fd_bitmap@;
        proof {
            assert forall|k: int| 2 <= k < fd implies #[trigger] w.file_array[k] != 0 by {
                assert(bit_is_set(old(self).fd_bitmap@, k - 1));
            }
            assert(!bit_is_set(old(self).fd_bitmap@, fd - 1));
            assert(fd >= 2) by {
                assert(bit_is_set(old(self).fd_bitmap@, 0));
            }
        }
        if fd as usize >= MAX_NUM_FD {
            let _ = mark_fd_unused(&mut self.fd_bitmap, fd);
            proof {
                assert forall|k: int| 0 <= k < MAX_NUM_FD implies #[trigger] bit_is_set(
                    self.fd_bitmap@,
                    k,
                ) == bit_is_set(old(self).fd_bitmap@, k) by {
                    assert(bit_is_set(taken, k) == (bit_is_set(old(self).fd_bitmap@, k) || k
                        == fd - 1));
                }
            }
            return Err(FsError::Exhausted);
        }
        proof {
            assert(w.file_array[fd as int] == 0) by {
                assert(!bit_is_set(old(self).fd_bitmap@, fd - 1));
            }
            assert(w.lowest_free_fd() == Some(fd as nat));
        }
        let ghost before = self.files@;
        self.file_array[fd as usize] = ino;
        self.files[idx].opened = true;
        proof {
            let b = w.bind(idx as int).0;
            assert(self@.file_array =~= b.file_array);
            assert forall|i: int| 0 <= i < self.files@.len() implies records(self.files@)[i]
                == b.files[i] by {
                if i != idx {
                    assert(self.files@[i] == before[i]);
                }
                assert(w.files[i] == before[i]@);
            }
            assert(self@.files =~= b.files);
            assert(self@ == b);
            assert forall|k: int| 0 <= k < MAX_NUM_FD implies #[trigger] bit_is_set(
                self.fd_bitmap@,
                k,
            ) == (k == 0 || (k + 1 < MAX_NUM_FD && self.file_array@[k + 1] != 0)) by {
                assert(bit_is_set(taken, k) == (bit_is_set(old(self).fd_bitmap@, k) || k == fd
                    - 1));
            }
        }
        Ok(fd)
    }

    /// Opens the file named `filename` and returns a descriptor for it. With
    /// `FILE_OPEN_CREATE_MODE` a file that does not exist is created empty.
    /// Fails with `InvalidArgument` for an unknown mode, `AlreadyOpen` when
    /// the file is open, `NotFound` when `FILE_OPEN_MODE` finds no file,
    /// `CapacityExceeded` when the directory region cannot take the new
    /// record, and `Exhausted` when no descriptor is free.
    pub fn file_system_open_file(&mut self, filename: &[u8], mode: u32) -> (r: Result<u32, FsError>)
        requires
            old(self).wf(),
        ensures
            final(self).wf(),
            (final(self)@, r) == old(self)@.open_file(filename@, mode),
    {
        if !(mode == FILE_OPEN_MODE || mode == FILE_OPEN_CREATE_MODE) {
            return Err(FsError::InvalidArgument);
        }
        let ghost v = old(self)@;
        proof {
            lemma_open_file_wf(v, filename@, mode);
            lemma_lookup(v.files, filename@, v.files.len());
        }
        let mut ino: u32 = 0;
        match find_file(&self.files, filename) {
            Some(i) => {
                assert(v.files[i as int] == self.files@[i as int]@);
                if self.files[i].opened {
                    return Err(FsError::AlreadyOpen);
                }
                ino = (i + 1) as u32;
            },
            None => {},
        }
        if ino == 0 && mode == FILE_OPEN_CREATE_MODE {
            ino = self.create_file(filename)?;
            proof {
                lemma_with_new_file_wf(v, filename@);
            }
        }
        if ino == 0 {
            return Err(FsError::NotFound);
        }
        self.bind_descriptor(ino)
    }

    /// Reads from the file that `fd` stands for, from byte `offset` on,
    /// into the front of `data`. Returns the number of bytes read: as many
    /// as `data` takes and the file has from `offset` on, and fewer only
    /// where the device ends first. At or beyond the end of the file that is
    /// 0. Fails with `InvalidArgument` when `fd` does not stand for an open
    /// file.
    pub fn file_system_read_from_file(&self, fd: u32, data: &mut [u8], offset: u32) -> (r: Result<
        u32,
        FsError,
    >)
        requires
            self.wf(),
        ensures
            (final(data)@, r) == self@.read_file(fd, old(data)@, offset),
    {
        let slot: usize = fd as usize;
        if slot == 0 || slot >= MAX_NUM_FD {
            return Err(FsError::InvalidArgument);
        }
        let ino: u32 = self.file_array[slot];
        if ino == 0 {
            return Err(FsError::InvalidArgument);
        }
        proof {
            assert(self@.file_array[slot as int] == ino);
            lemma_open_descriptor(self@, fd);
        }
        let idx: usize = (ino - 1) as usize;
        let file: &File = &self.files[idx];
        assert(self@.file_of(fd) == file@);
        let ghost addr = byte_address(file@.start_block, offset as nat);
        if offset >= file.size {
            assert(data@ =~= splice(old(data)@, 0, self@.disk.load(addr, 0)));
            return Ok(0);
        }
        let mut size: u32 = file.size - offset;
        if data.len() < size as usize {
            size = data.len() as u32;
        }
        let read_size: u32 = read_file_bytes(&self.disk, data, file.start_block, offset, size);
        Ok(read_size)
    }

    /// Writes `data` to the file that `fd` stands for, from byte `offset`
    /// on. A write that ends beyond the end of the file lets the file grow
    /// first. Returns the number of bytes written: all of `data`, or fewer
    /// where the file could not grow or the device ends first. Fails with
    /// `InvalidArgument` when `fd` does not stand for an open file or
    /// `offset` lies beyond the end of the file, and with `Exhausted` when
    /// the file could not grow and has no room for even one byte.
    pub fn file_system_write_to_file(&mut self, fd: u32, data: &[u8], offset: u32) -> (r: Result<
        u32,
        FsError,
    >)
        requires
            old(self).wf(),
        ensures
            final(self).wf(),
            (final(self)@, r) == old(self)@.write_file(fd, data@, offset),
    {
        let slot: usize = fd as usize;
        if slot == 0 || slot >= MAX_NUM_FD {
            return Err(FsError::InvalidArgument);
        }
        let ino: u32 = self.file_array[slot];
        if ino == 0 {
            return Err(FsError::InvalidArgument);
        }
        let ghost v = old(self)@;
        proof {
            assert(v.file_array[slot as int] == ino);
            lemma_open_descriptor(v, fd);
        }
        let idx: usize = (ino - 1) as usize;
        assert(v.file_of(fd) == self.files@[idx as int]@);
        let file_size: u32 = self.files[idx].size;
        if offset > file_size {
            return Err(FsError::InvalidArgument);
        }
        let len: usize = data.len();
        if len == 0 {
            return Ok(0);
        }
        proof {
            lemma_write_file_wf(v, fd, data@, offset);
        }
        if len > (file_size - offset) as usize && len <= (u32::MAX - offset) as usize {
            let _ = expand_file_size(
                &mut self.files,
                idx,
                offset + len as u32,
                self.partition_num_blocks,
                &mut self.dir_data,
                &mut self.disk,
            );
        }
        let ghost grown = v.grown_for_write(idx as int, len as nat, offset as nat);
        proof {
            assert(self@.file_array =~= grown.file_array);
            assert(self@ == grown);
        }
        let file_size: u32 = self.files[idx].size;
        assert(grown.files[idx as int] == self.files@[idx as int]@);
        if offset >= file_size {
            return Err(FsError::Exhausted);
        }
        let mut size: u32 = file_size - offset;
        if len < size as usize {
            size = len as u32;
        }
        let start_block: u32 = self.files[idx].start_block;
        let written_size: u32 = write_file_bytes(&mut self.disk, data, start_block, offset, size);
        proof {
            assert(self@.file_array =~= grown.file_array);
        }
        Ok(written_size)
    }

    /// Number of files that are registered.
    pub fn num_files(&self) -> (n: usize)
        requires
            self.wf(),
        ensures
            n == self@.files.len(),
    {
        self.files.len()
    }

    /// Size in bytes of the file that `fd` stands for, or `None` when `fd`
    /// does not stand for an open file.
    pub fn file_size(&self, fd: u32) -> (r: Option<u32>)
        requires
            self.wf(),
        ensures
            r is Some <==> self@.is_open(fd),
            r matches Some(size) ==> size == self@.file_of(fd).size,
    {
        match self.open_file_index(fd) {
            Some(idx) => Some(self.files[idx].size),
            None => None,
        }
    }

    /// First block and number of blocks of the file that `fd` stands for, or
    /// `None` when `fd` does not stand for an open file.
    pub fn file_extent(&self, fd: u32) -> (r: Option<(u32, u32)>)
        requires
            self.wf(),
        ensures
            r is Some <==> self@.is_open(fd),
            r matches Some(extent) ==> extent.0 == self@.file_of(fd).start_block && extent.1
                == self@.file_of(fd).num_blocks,
    {
        match self.open_file_index(fd) {
            Some(idx) => Some((self.files[idx].start_block, self.files[idx].num_blocks)),
            None => None,
        }
    }

    /// Index in the registry of the file that `fd` stands for, if it stands
    /// for an open file.
    fn open_file_index(&self, fd: u32) -> (r: Option<usize>)
        requires
            self.wf(),
        ensures
            r is Some <==> self@.is_open(fd),
            r matches Some(idx) ==> idx == self@.index_of(fd) && idx < self.files@.len()
                && self.files@[idx as int]@ == self@.file_of(fd),
    {
        let slot: usize = fd as usize;
        if slot == 0 || slot >= MAX_NUM_FD {
            return None;
        }
        let ino: u32 = self.file_array[slot];
        if ino == 0 {
            return None;
        }
        proof {
            assert(self@.file_array[slot as int] == ino);
            lemma_open_descriptor(self@, fd);
        }
        Some((ino - 1) as usize)
    }
}

} // verus!
