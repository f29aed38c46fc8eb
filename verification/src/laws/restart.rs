//! What holds across a restart: the files and their bytes are there again.

use vstd::prelude::*;
use crate::layout::MAX_NUM_FD;
use crate::layout::FILE_OPEN_MODE;
use crate::layout::DIR_DATA_NUM_BLOCKS;
use crate::layout::DIR_DATA_SIZE;
use crate::error::FsError;
use crate::file::FileView;
use crate::block_io::byte_address;
use crate::model::FsView;
use crate::invariants::lemma_open_descriptor;
use crate::model::initialized;
use crate::model::lemma_lowest_free;
use crate::invariants::lemma_write_file_wf;
use crate::model::no_descriptors;
use crate::directory::in_sync;
use crate::directory::all_closed;
use crate::directory::directory_image;
use crate::directory::lemma_decode_in_sync;
use crate::laws::extents::lemma_write_keeps_consistent;
use crate::laws::extents::lemma_same_records;
use crate::laws::extents::lemma_in_sync_same_places;
use crate::laws::extents::lemma_write_keeps_durable;
use crate::laws::contents::lemma_reopen_finds;
use crate::laws::contents::lemma_read_depends;
use crate::laws::contents::lemma_read_after_write;
use crate::laws::contents::lemma_write_keeps_descriptors;

verus! {

/// Shutting down writes the whole region to a device that has the blocks
/// for it: reading the region back yields it, and the bytes behind the
/// region are as they were.
pub(crate) proof fn lemma_shut_down_stores_region(v: FsView)
    requires
        v.wf(),
        v.disk.num_blocks() >= DIR_DATA_NUM_BLOCKS,
    ensures
        v.shut_down().wf(),
        v.shut_down().bytes.len() == v.disk.bytes.len(),
        directory_image(v.shut_down()) == v.dir_data,
        forall|a: int|
            DIR_DATA_SIZE <= a < v.disk.bytes.len() ==> #[trigger] v.shut_down().bytes[a]
                == v.disk.bytes[a],
{
    let d = v.shut_down();
    crate::invariants::lemma_store_clamped_wf(v.disk, 0, v.dir_data);
    assert(v.disk.bytes_within(0, DIR_DATA_SIZE as nat) == DIR_DATA_SIZE);
    assert(v.dir_data.subrange(0, DIR_DATA_SIZE as int) =~= v.dir_data);
    assert(d.bytes_within(0, DIR_DATA_SIZE as nat) == DIR_DATA_SIZE);
    assert(directory_image(d) =~= v.dir_data);
}

/// A restart loses nothing: a filesystem that starts on the device that
/// another one shut down to has the same records, all closed, the same
/// region and cursor, no open descriptor, and the device as it was handed
/// back, on which every byte behind the directory region is as it was.
pub proof fn lemma_restart_restores(v: FsView, partition_num_blocks: nat)
    requires
        v.wf(),
        v.durable(),
        partition_num_blocks <= u32::MAX,
    ensures
        ({
            let r = initialized(v.shut_down(), partition_num_blocks);
            &&& r.files == all_closed(v.files)
            &&& r.dir_data == v.dir_data
            &&& r.dir_data_ptr == v.dir_data_ptr
            &&& r.file_array == no_descriptors()
            &&& r.disk == v.shut_down()
            &&& r.wf()
            &&& r.durable()
            &&& r.disk.bytes.len() == v.disk.bytes.len()
            &&& forall|a: int|
                DIR_DATA_SIZE <= a < v.disk.bytes.len() ==> #[trigger] r.disk.bytes[a]
                    == v.disk.bytes[a]
        }),
{
    let d = v.shut_down();
    let r = initialized(d, partition_num_blocks);
    lemma_shut_down_stores_region(v);
    lemma_decode_in_sync(v.dir_data, v.dir_data_ptr, v.files);
    assert(r.files == all_closed(v.files) && r.dir_data_ptr == v.dir_data_ptr);
    assert(r.wf()) by {
        crate::invariants::lemma_initialized_wf(d, partition_num_blocks);
    }
    assert(in_sync(r.dir_data, r.dir_data_ptr, r.files)) by {
        lemma_in_sync_same_places(v.dir_data, v.dir_data, v.dir_data_ptr, v.files, r.files);
    }
}

/// A restart keeps the bytes that lie behind the directory region.
pub(crate) proof fn lemma_restart_keeps_stored(w: FsView, partition_num_blocks: nat, addr: nat, len: nat)
    requires
        w.wf(),
        w.durable(),
        partition_num_blocks <= u32::MAX,
        DIR_DATA_SIZE <= addr,
        addr + len <= w.disk.bytes.len(),
    ensures
        initialized(w.shut_down(), partition_num_blocks).disk.load(addr, len) == w.disk.load(
            addr,
            len,
        ),
{
    lemma_restart_restores(w, partition_num_blocks);
    let r = initialized(w.shut_down(), partition_num_blocks);
    assert(r.disk.load(addr, len) =~= w.disk.load(addr, len));
}

/// A file that holds bytes and obeys the rules of the data model has its
/// bytes behind the directory region.
pub(crate) proof fn lemma_bytes_behind_directory(f: FileView, offset: nat)
    requires
        f.size > 0,
        f.size <= f.capacity(),
        f.num_blocks > 0 ==> DIR_DATA_NUM_BLOCKS <= f.start_block,
    ensures
        byte_address(f.start_block, offset) >= DIR_DATA_SIZE,
{
}

/// After a restart a file that was open is opened by its name: the
/// descriptor stands for a record with the same extent and size.
pub(crate) proof fn lemma_restart_reopens(v: FsView, fd: u32, partition_num_blocks: nat)
    requires
        v.wf(),
        v.durable(),
        v.is_open(fd),
        partition_num_blocks <= u32::MAX,
    ensures
        ({
            let restarted = initialized(v.shut_down(), partition_num_blocks);
            let reopened = restarted.open_file(v.file_of(fd).name, FILE_OPEN_MODE);
            &&& reopened.1 is Ok
            &&& reopened.0.is_open(reopened.1->Ok_0)
            &&& reopened.0.file_of(reopened.1->Ok_0).closed() == v.file_of(fd).closed()
            &&& reopened.0.disk == v.shut_down()
        }),
{
    let name = v.file_of(fd).name;
    let idx = v.index_of(fd);
    assert(0 <= idx < v.files.len() && v.files[idx].opened) by {
        lemma_open_descriptor(v, fd);
    }
    let r = initialized(v.shut_down(), partition_num_blocks);
    lemma_restart_restores(v, partition_num_blocks);
    assert(r.lookup(name) == Some(idx)) by {
        lemma_reopen_finds(v, r, idx, name);
    }
    lemma_lowest_free(r.file_array, MAX_NUM_FD as nat);
    assert(r.file_array[2] == 0);
    assert(!r.files[idx].opened);
    assert(r.open_file(name, FILE_OPEN_MODE) == r.bind(idx));
}

/// A restart keeps what every file holds: a read from a file that was open
/// before the restart, made through the file's name after it, yields what it
/// yielded before.
pub proof fn lemma_restart_keeps_contents(
    v: FsView,
    fd: u32,
    buf: Seq<u8>,
    offset: u32,
    partition_num_blocks: nat,
)
    requires
        v.wf(),
        v.durable(),
        v.consistent(),
        v.is_open(fd),
        partition_num_blocks <= u32::MAX,
    ensures
        ({
            let name = v.file_of(fd).name;
            let restarted = initialized(v.shut_down(), partition_num_blocks);
            let reopened = restarted.open_file(name, FILE_OPEN_MODE);
            &&& reopened.1 is Ok
            &&& reopened.0.read_file(reopened.1->Ok_0, buf, offset) == v.read_file(fd, buf, offset)
        }),
{
    let f = v.file_of(fd);
    let r = initialized(v.shut_down(), partition_num_blocks);
    let reopened = r.open_file(f.name, FILE_OPEN_MODE);
    lemma_restart_reopens(v, fd, partition_num_blocks);
    lemma_shut_down_stores_region(v);
    let n = v.transfer_len(f, buf.len(), offset as nat);
    let addr = byte_address(f.start_block, offset as nat);
    if n > 0 {
        assert(f.size <= f.capacity() && (f.num_blocks > 0 ==> DIR_DATA_NUM_BLOCKS
            <= f.start_block)) by {
            lemma_open_descriptor(v, fd);
        }
        lemma_bytes_behind_directory(f, offset as nat);
        lemma_restart_keeps_stored(v, partition_num_blocks, addr, n);
    }
    lemma_read_depends(v, fd, reopened.0, reopened.1->Ok_0, buf, offset);
}

/// What was written is read back after a restart: when the filesystem is
/// shut down and one is started on the device that was handed back, a read
/// of as many bytes from the file of that name, at the same offset, yields
/// the bytes written.
pub proof fn lemma_read_back_after_restart(
    v: FsView,
    fd: u32,
    data: Seq<u8>,
    offset: u32,
    buf: Seq<u8>,
    partition_num_blocks: nat,
)
    requires
        v.wf(),
        v.durable(),
        v.consistent(),
        partition_num_blocks <= u32::MAX,
        data.len() <= u32::MAX,
        v.write_file(fd, data, offset).1 == Ok::<u32, FsError>(data.len() as u32),
        v.is_open(fd),
        buf.len() == data.len(),
    ensures
        ({
            let name = v.file_of(fd).name;
            let written = v.write_file(fd, data, offset).0;
            let restarted = initialized(written.shut_down(), partition_num_blocks);
            let reopened = restarted.open_file(name, FILE_OPEN_MODE);
            &&& reopened.1 is Ok
            &&& reopened.0.read_file(reopened.1->Ok_0, buf, offset) == (
                data,
                Ok::<u32, FsError>(data.len() as u32),
            )
        }),
{
    let w = v.write_file(fd, data, offset).0;
    lemma_write_file_wf(v, fd, data, offset);
    lemma_write_keeps_durable(v, fd, data, offset);
    lemma_write_keeps_consistent(v, fd, data, offset);
    lemma_read_after_write(v, fd, data, offset, buf);
    assert(w.is_open(fd) && w.file_of(fd).name == v.file_of(fd).name) by {
        lemma_write_keeps_descriptors(v, fd, data, offset);
    }
    lemma_restart_keeps_contents(w, fd, buf, offset, partition_num_blocks);
}

/// A restart for a partition that is no smaller keeps the rules of the data
/// model.
pub proof fn lemma_restart_keeps_consistent(v: FsView, partition_num_blocks: nat)
    requires
        v.wf(),
        v.durable(),
        v.consistent(),
        v.partition_num_blocks <= partition_num_blocks <= u32::MAX,
    ensures
        initialized(v.shut_down(), partition_num_blocks).consistent(),
{
    let r = initialized(v.shut_down(), partition_num_blocks);
    lemma_restart_restores(v, partition_num_blocks);
    let w = FsView { files: all_closed(v.files), ..v };
    lemma_same_records(v, w);
    assert(w.consistent());
    assert forall|i: int|
        0 <= i < r.files.len() && (#[trigger] r.files[i]).num_blocks > 0
        implies DIR_DATA_NUM_BLOCKS <= r.files[i].start_block && r.files[i].end_block()
        <= r.partition_num_blocks by {
        assert(w.files[i].num_blocks > 0);
    }
}

} // verus!
