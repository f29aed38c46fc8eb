//! What holds of the records: extents stay apart, files never shrink, and
//! every operation keeps the data model and keeps the directory region in
//! step with the records.

use vstd::prelude::*;
use crate::layout::MAX_NUM_FD;
use crate::layout::STORAGE_BLOCK_SIZE;
use crate::layout::DIR_DATA_NUM_BLOCKS;
use crate::layout::dir_signature;
use crate::disk::DiskView;
use crate::file::FileView;
use crate::directory::can_add_record;
use crate::growth::blocks_for;
use crate::growth::extra_bytes;
use crate::growth::extents_disjoint;
use crate::growth::extents_overlap;
use crate::growth::fits_last_block;
use crate::growth::growth_plan;
use crate::growth::packed_start;
use crate::growth::lemma_packed_start;
use crate::model::FsView;
use crate::invariants::lemma_close_keeps_records;
use crate::invariants::lemma_open_keeps_records;
use crate::invariants::lemma_open_descriptor;
use crate::model::initialized;
use crate::model::lemma_lookup;
use crate::model::lemma_lowest_free;
use crate::invariants::lemma_with_new_file_wf;
use crate::invariants::lemma_grown_wf;
use crate::codec::le16_bytes;
use crate::codec::lemma_le16_roundtrip;
use crate::directory::declared_count;
use crate::directory::in_sync;
use crate::directory::directory_image;

verus! {

/// Growing a file keeps the extents of all files apart.
pub proof fn lemma_grown_keeps_extents_disjoint(v: FsView, idx: int, size: nat)
    requires
        0 <= idx < v.files.len(),
        v.files[idx].size < size,
        extents_disjoint(v.files),
    ensures
        extents_disjoint(v.grown(idx, size).files),
{
    match growth_plan(v.files, idx, size, v.partition_num_blocks) {
        None => {},
        Some(plan) => {
            let w = v.grown(idx, size);
            let f = v.files[idx];
            let g = w.files[idx];
            let needed = blocks_for(extra_bytes(f, size));
            lemma_packed_start(v.files, idx, v.files.len());
            assert forall|i: int, j: int|
                #![trigger w.files[i], w.files[j]]
                0 <= i < w.files.len() && 0 <= j < w.files.len() && i != j implies !extents_overlap(
                w.files[i],
                w.files[j],
            ) by {
                assert(!extents_overlap(v.files[i], v.files[j]));
                if i == idx {
                    assert(w.files[j] == v.files[j]);
                    assert(!extents_overlap(f, v.files[j]));
                    assert(!extents_overlap(g, v.files[j]));
                } else if j == idx {
                    assert(w.files[i] == v.files[i]);
                    assert(!extents_overlap(f, v.files[i]));
                    assert(!extents_overlap(v.files[i], g));
                } else {
                    assert(w.files[i] == v.files[i]);
                    assert(w.files[j] == v.files[j]);
                }
            }
        },
    }
}

/// Writing keeps the extents of all files apart.
pub proof fn lemma_write_keeps_extents_disjoint(v: FsView, fd: u32, data: Seq<u8>, offset: u32)
    requires
        v.wf(),
        extents_disjoint(v.files),
    ensures
        extents_disjoint(v.write_file(fd, data, offset).0.files),
{
    if v.is_open(fd) && offset <= v.file_of(fd).size && data.len() > 0 {
        lemma_open_descriptor(v, fd);
        let idx = v.index_of(fd);
        if !(offset + data.len() <= v.files[idx].size || offset + data.len() > u32::MAX) {
            lemma_grown_keeps_extents_disjoint(v, idx, (offset + data.len()) as nat);
        }
    }
}

/// Opening a file, also one that is created by it, keeps the extents of all
/// files apart: a new file owns no block.
pub proof fn lemma_open_keeps_extents_disjoint(v: FsView, name: Seq<u8>, mode: u32)
    requires
        v.wf(),
        extents_disjoint(v.files),
    ensures
        extents_disjoint(v.open_file(name, mode).0.files),
{
    let w = v.open_file(name, mode).0;
    lemma_lookup(v.files, name, v.files.len());
    lemma_lowest_free(v.file_array, MAX_NUM_FD as nat);
    if w.files.len() == v.files.len() {
        assert forall|i: int, j: int|
            #![trigger w.files[i], w.files[j]]
            0 <= i < w.files.len() && 0 <= j < w.files.len() && i != j implies !extents_overlap(
            w.files[i],
            w.files[j],
        ) by {
            assert(!extents_overlap(v.files[i], v.files[j]));
            assert(w.files[i].closed() == v.files[i].closed());
            assert(w.files[j].closed() == v.files[j].closed());
        }
    } else {
        let n = v.with_new_file(name);
        lemma_lowest_free(n.file_array, MAX_NUM_FD as nat);
        assert forall|i: int, j: int|
            #![trigger w.files[i], w.files[j]]
            0 <= i < w.files.len() && 0 <= j < w.files.len() && i != j implies !extents_overlap(
            w.files[i],
            w.files[j],
        ) by {
            assert(w.files[i].closed() == n.files[i].closed());
            assert(w.files[j].closed() == n.files[j].closed());
            if i < v.files.len() && j < v.files.len() {
                assert(n.files[i] == v.files[i]);
                assert(n.files[j] == v.files[j]);
                assert(!extents_overlap(v.files[i], v.files[j]));
            }
        }
    }
}

/// Closing a descriptor keeps the extents of all files apart.
pub proof fn lemma_close_keeps_extents_disjoint(v: FsView, fd: u32)
    requires
        v.wf(),
        extents_disjoint(v.files),
    ensures
        extents_disjoint(v.close_file(fd).0.files),
{
    let w = v.close_file(fd).0;
    lemma_close_keeps_records(v, fd);
    assert forall|i: int, j: int|
        #![trigger w.files[i], w.files[j]]
        0 <= i < w.files.len() && 0 <= j < w.files.len() && i != j implies !extents_overlap(
        w.files[i],
        w.files[j],
    ) by {
        assert(!extents_overlap(v.files[i], v.files[j]));
        assert(w.files[i].closed() == v.files[i].closed());
        assert(w.files[j].closed() == v.files[j].closed());
    }
}

/// A filesystem that starts on a device without the signature has no files,
/// so no two extents meet.
pub proof fn lemma_formatted_extents_disjoint(disk: DiskView, partition_num_blocks: nat)
    requires
        crate::directory::directory_image(disk).subrange(0, 4) != dir_signature(),
    ensures
        initialized(disk, partition_num_blocks).files.len() == 0,
        extents_disjoint(initialized(disk, partition_num_blocks).files),
{
}

/// A write never makes a file smaller, and leaves every other file's extent
/// and size as they are.
pub proof fn lemma_write_never_shrinks(v: FsView, fd: u32, data: Seq<u8>, offset: u32)
    requires
        v.wf(),
    ensures
        v.write_file(fd, data, offset).0.files.len() == v.files.len(),
        forall|i: int|
            0 <= i < v.files.len() ==> (#[trigger] v.write_file(fd, data, offset).0.files[i]).size
                >= v.files[i].size,
        forall|i: int|
            0 <= i < v.files.len() && !(v.is_open(fd) && i == v.index_of(fd)) ==> (
            #[trigger] v.write_file(fd, data, offset).0.files[i]) == v.files[i],
{
    if v.is_open(fd) && offset <= v.file_of(fd).size && data.len() > 0 {
        lemma_open_descriptor(v, fd);
    }
}

/// Whether a write of `len` bytes to the file at `idx` gives the file a new
/// extent of fewer blocks than its record claims. That takes an empty file
/// whose record claims blocks all the same, as only a region that this
/// engine did not write can hold.
pub open spec fn write_replaces_larger_extent(v: FsView, idx: int, len: nat) -> bool {
    &&& v.files[idx].size == 0
    &&& 0 < len <= u32::MAX
    &&& packed_start(v.files, idx) + blocks_for(len) < v.partition_num_blocks
    &&& blocks_for(len) < v.files[idx].num_blocks
}

/// A write never takes blocks from a file: the number of blocks that the
/// file owns stays or grows.
pub proof fn lemma_write_keeps_blocks(v: FsView, fd: u32, data: Seq<u8>, offset: u32)
    requires
        v.wf(),
        v.is_open(fd),
        !write_replaces_larger_extent(v, v.index_of(fd), data.len()),
    ensures
        v.write_file(fd, data, offset).0.file_of(fd).num_blocks >= v.file_of(fd).num_blocks,
{
    if offset <= v.file_of(fd).size && data.len() > 0 {
        lemma_open_descriptor(v, fd);
    }
}

/// Opening and closing leave every file's extent and size as they are.
pub proof fn lemma_open_close_keep_extents(v: FsView, name: Seq<u8>, mode: u32, fd: u32)
    requires
        v.wf(),
    ensures
        forall|i: int|
            0 <= i < v.files.len() ==> (#[trigger] v.open_file(name, mode).0.files[i]).closed()
                == v.files[i].closed(),
        forall|i: int|
            0 <= i < v.files.len() ==> (#[trigger] v.close_file(fd).0.files[i]).closed()
                == v.files[i].closed(),
{
    lemma_open_keeps_records(v, name, mode);
    lemma_close_keeps_records(v, fd);
}

/// No operation moves a record or renames a file: the place of every file's
/// record in the directory region and its name stay as they were when the
/// file was registered.
pub proof fn lemma_record_place_is_fixed(
    v: FsView,
    name: Seq<u8>,
    mode: u32,
    fd: u32,
    data: Seq<u8>,
    offset: u32,
)
    requires
        v.wf(),
    ensures
        forall|i: int|
            0 <= i < v.files.len() ==> (#[trigger] v.open_file(name, mode).0.files[i]).dir_data_off
                == v.files[i].dir_data_off && v.open_file(name, mode).0.files[i].name
                == v.files[i].name,
        forall|i: int|
            0 <= i < v.files.len() ==> (#[trigger] v.close_file(fd).0.files[i]).dir_data_off
                == v.files[i].dir_data_off && v.close_file(fd).0.files[i].name == v.files[i].name,
        forall|i: int|
            0 <= i < v.files.len() ==> (#[trigger] v.write_file(
                fd,
                data,
                offset,
            ).0.files[i]).dir_data_off == v.files[i].dir_data_off && v.write_file(
                fd,
                data,
                offset,
            ).0.files[i].name == v.files[i].name,
{
    lemma_open_close_keep_extents(v, name, mode, fd);
    assert forall|i: int| 0 <= i < v.files.len() implies (#[trigger] v.open_file(
        name,
        mode,
    ).0.files[i]).dir_data_off == v.files[i].dir_data_off && v.open_file(name, mode).0.files[i].name
        == v.files[i].name by {
        assert(v.open_file(name, mode).0.files[i].closed() == v.files[i].closed());
    }
    assert forall|i: int| 0 <= i < v.files.len() implies (#[trigger] v.close_file(
        fd,
    ).0.files[i]).dir_data_off == v.files[i].dir_data_off && v.close_file(fd).0.files[i].name
        == v.files[i].name by {
        assert(v.close_file(fd).0.files[i].closed() == v.files[i].closed());
    }
    if v.is_open(fd) && offset <= v.file_of(fd).size && data.len() > 0 {
        lemma_open_descriptor(v, fd);
    }
}

/// The blocks that hold a number of bytes have room for them.
pub(crate) proof fn lemma_blocks_for(bytes: nat)
    ensures
        blocks_for(bytes) * STORAGE_BLOCK_SIZE >= bytes,
        bytes > 0 ==> blocks_for(bytes) >= 1,
{
}

/// A file that does not fill its last block has room in it for as many
/// bytes as the block has left.
pub(crate) proof fn lemma_last_block_has_room(size: nat, num_blocks: nat, extra: nat)
    requires
        size <= num_blocks * STORAGE_BLOCK_SIZE,
        size % (STORAGE_BLOCK_SIZE as nat) != 0,
        STORAGE_BLOCK_SIZE - size % (STORAGE_BLOCK_SIZE as nat) >= extra,
    ensures
        size + extra <= num_blocks * STORAGE_BLOCK_SIZE,
{
}

/// The extent that a growth plans holds the file's new size, lies behind the
/// directory region and ends within the partition.
pub(crate) proof fn lemma_plan_is_sound(files: Seq<FileView>, idx: int, size: nat, partition: nat)
    requires
        0 <= idx < files.len(),
        files[idx].size < size,
        files[idx].size <= files[idx].capacity(),
        files[idx].num_blocks > 0 ==> DIR_DATA_NUM_BLOCKS <= files[idx].start_block
            && files[idx].end_block() <= partition,
        growth_plan(files, idx, size, partition) is Some,
    ensures
        ({
            let plan = growth_plan(files, idx, size, partition)->Some_0;
            &&& size <= plan.num_blocks * STORAGE_BLOCK_SIZE
            &&& plan.num_blocks > 0
            &&& DIR_DATA_NUM_BLOCKS <= plan.start_block
            &&& plan.start_block + plan.num_blocks <= partition
        }),
{
    let f = files[idx];
    let extra = extra_bytes(f, size);
    let needed = blocks_for(extra);
    lemma_blocks_for(extra);
    if fits_last_block(f, size) {
        lemma_last_block_has_room(f.size, f.num_blocks, extra);
    } else if f.size == 0 {
        lemma_packed_start(files, idx, files.len());
    } else {
    }
}

/// Asking a file to grow keeps the rules of the data model.
pub proof fn lemma_grown_keeps_consistent(v: FsView, idx: int, size: nat)
    requires
        v.wf(),
        v.consistent(),
        0 <= idx < v.files.len(),
        v.files[idx].size < size,
    ensures
        v.grown(idx, size).consistent(),
{
    lemma_grown_keeps_extents_disjoint(v, idx, size);
    match growth_plan(v.files, idx, size, v.partition_num_blocks) {
        None => {},
        Some(plan) => {
            let w = v.grown(idx, size);
            assert(v.files[idx].size <= v.files[idx].capacity());
            lemma_plan_is_sound(v.files, idx, size, v.partition_num_blocks);
            assert forall|i: int| 0 <= i < w.files.len() implies (#[trigger] w.files[i]).size
                <= w.files[i].capacity() by {
                if i != idx {
                    assert(w.files[i] == v.files[i]);
                }
            }
            assert forall|i: int|
                0 <= i < w.files.len() && (#[trigger] w.files[i]).num_blocks > 0
                implies DIR_DATA_NUM_BLOCKS <= w.files[i].start_block && w.files[i].end_block()
                <= w.partition_num_blocks by {
                if i != idx {
                    assert(w.files[i] == v.files[i]);
                }
            }
        },
    }
}

/// Writing keeps the rules of the data model.
pub proof fn lemma_write_keeps_consistent(v: FsView, fd: u32, data: Seq<u8>, offset: u32)
    requires
        v.wf(),
        v.consistent(),
    ensures
        v.write_file(fd, data, offset).0.consistent(),
{
    if v.is_open(fd) && offset <= v.file_of(fd).size && data.len() > 0 {
        lemma_open_descriptor(v, fd);
        let idx = v.index_of(fd);
        if !(offset + data.len() <= v.files[idx].size || offset + data.len() > u32::MAX) {
            lemma_grown_keeps_consistent(v, idx, (offset + data.len()) as nat);
        }
    }
}

/// Records that differ only in whether they are open are in step with the
/// region alike, and obey the rules of the data model alike.
pub(crate) proof fn lemma_same_records(v: FsView, w: FsView)
    requires
        w.files.len() == v.files.len(),
        forall|k: int| 0 <= k < v.files.len() ==> (#[trigger] w.files[k]).closed() == v.files[k].closed(),
        w.dir_data == v.dir_data,
        w.dir_data_ptr == v.dir_data_ptr,
        w.partition_num_blocks == v.partition_num_blocks,
        w.disk.num_blocks() == v.disk.num_blocks(),
    ensures
        v.durable() ==> w.durable(),
        v.consistent() ==> w.consistent(),
{
    if v.durable() {
        assert forall|i: int| 0 <= i < v.files.len() implies (#[trigger] w.files[i]).dir_data_off
            == v.files[i].dir_data_off && w.files[i].name == v.files[i].name by {
            assert(w.files[i].closed() == v.files[i].closed());
        }
        lemma_in_sync_same_places(v.dir_data, w.dir_data, v.dir_data_ptr, v.files, w.files);
    }
    if v.consistent() {
        assert forall|i: int, j: int|
            #![trigger w.files[i], w.files[j]]
            0 <= i < w.files.len() && 0 <= j < w.files.len() && i != j implies !extents_overlap(
            w.files[i],
            w.files[j],
        ) by {
            assert(!extents_overlap(v.files[i], v.files[j]));
            assert(w.files[i].closed() == v.files[i].closed());
            assert(w.files[j].closed() == v.files[j].closed());
        }
        assert forall|i: int| 0 <= i < w.files.len() implies (#[trigger] w.files[i]).size
            <= w.files[i].capacity() by {
            assert(w.files[i].closed() == v.files[i].closed());
            assert(v.files[i].size <= v.files[i].capacity());
        }
        assert forall|i: int|
            0 <= i < w.files.len() && (#[trigger] w.files[i]).num_blocks > 0
            implies DIR_DATA_NUM_BLOCKS <= w.files[i].start_block && w.files[i].end_block()
            <= w.partition_num_blocks by {
            assert(w.files[i].closed() == v.files[i].closed());
            assert(v.files[i].num_blocks > 0);
        }
    }
}

/// Registering a new file keeps the rules of the data model: the new file
/// owns no block and holds no byte.
pub(crate) proof fn lemma_with_new_file_keeps_consistent(v: FsView, name: Seq<u8>)
    requires
        v.consistent(),
    ensures
        v.with_new_file(name).consistent(),
{
    let w = v.with_new_file(name);
    assert forall|i: int, j: int|
        #![trigger w.files[i], w.files[j]]
        0 <= i < w.files.len() && 0 <= j < w.files.len() && i != j implies !extents_overlap(
        w.files[i],
        w.files[j],
    ) by {
        if i < v.files.len() && j < v.files.len() {
            assert(w.files[i] == v.files[i]);
            assert(w.files[j] == v.files[j]);
            assert(!extents_overlap(v.files[i], v.files[j]));
        }
    }
    assert forall|i: int| 0 <= i < w.files.len() implies (#[trigger] w.files[i]).size
        <= w.files[i].capacity() by {
        if i < v.files.len() {
            assert(w.files[i] == v.files[i]);
        }
    }
    assert forall|i: int|
        0 <= i < w.files.len() && (#[trigger] w.files[i]).num_blocks > 0
        implies DIR_DATA_NUM_BLOCKS <= w.files[i].start_block && w.files[i].end_block()
        <= w.partition_num_blocks by {
        if i < v.files.len() {
            assert(w.files[i] == v.files[i]);
        }
    }
}

/// Registering a new file keeps the region in step with the records: the
/// new record follows the last one, and the header counts it.
pub(crate) proof fn lemma_with_new_file_keeps_durable(v: FsView, name: Seq<u8>)
    requires
        v.wf(),
        v.durable(),
        can_add_record(v.dir_data, v.dir_data_ptr, name.len()),
    ensures
        v.with_new_file(name).durable(),
{
    let w = v.with_new_file(name);
    assert(w.disk.num_blocks() == v.disk.num_blocks()) by {
        crate::invariants::lemma_store_clamped_wf(v.disk, 0, w.dir_data);
    }
    let count = declared_count(v.dir_data);
    assert(declared_count(w.dir_data) == w.files.len()) by {
        lemma_le16_roundtrip(count + 1);
        assert(w.dir_data.subrange(4, 6) =~= le16_bytes(count + 1));
    }
    if v.files.len() > 0 {
        assert(w.files[0] == v.files[0]);
        assert(w.files[v.files.len() - 1] == v.files[v.files.len() - 1]);
    }
    assert forall|i: int, j: int|
        #![trigger w.files[i], w.files[j]]
        0 <= i < w.files.len() && j == i + 1 && j < w.files.len() implies w.files[j].dir_data_off
        == w.files[i].slot_end() by {
        assert(w.files[i] == v.files[i]);
        if j < v.files.len() {
            assert(w.files[j] == v.files[j]);
            assert(v.files[j].dir_data_off == v.files[i].slot_end());
        }
    }
}

/// Whether a region is in step with its records depends on the header's
/// count, on the cursor, and on the place and the name of each record:
/// records that agree in these with records in step are in step too.
pub(crate) proof fn lemma_in_sync_same_places(
    data: Seq<u8>,
    other_data: Seq<u8>,
    cursor: nat,
    files: Seq<FileView>,
    other: Seq<FileView>,
)
    requires
        in_sync(data, cursor, files),
        other_data.subrange(4, 6) == data.subrange(4, 6),
        other.len() == files.len(),
        forall|i: int|
            0 <= i < files.len() ==> (#[trigger] other[i]).dir_data_off == files[i].dir_data_off
                && other[i].name == files[i].name,
    ensures
        in_sync(other_data, cursor, other),
{
    if files.len() > 0 {
        assert(other[0].dir_data_off == files[0].dir_data_off);
        assert(other[files.len() - 1].slot_end() == files[files.len() - 1].slot_end());
    }
    assert forall|i: int, j: int|
        #![trigger other[i], other[j]]
        0 <= i < other.len() && j == i + 1 && j < other.len() implies other[j].dir_data_off
        == other[i].slot_end() by {
        assert(files[j].dir_data_off == files[i].slot_end());
        assert(other[i].slot_end() == files[i].slot_end());
    }
}

/// Asking a file to grow keeps the region in step with the records.
pub proof fn lemma_grown_keeps_durable(v: FsView, idx: int, size: nat)
    requires
        v.wf(),
        v.durable(),
        0 <= idx < v.files.len(),
        v.files[idx].size < size <= u32::MAX,
    ensures
        v.grown(idx, size).durable(),
{
    lemma_grown_wf(v, idx, size);
    match growth_plan(v.files, idx, size, v.partition_num_blocks) {
        None => {},
        Some(plan) => {
            let w = v.grown(idx, size);
            assert(v.files[idx].wf());
            assert(w.dir_data.subrange(4, 6) =~= v.dir_data.subrange(4, 6));
            lemma_in_sync_same_places(v.dir_data, w.dir_data, v.dir_data_ptr, v.files, w.files);
        },
    }
}

/// Writing keeps the region in step with the records.
pub proof fn lemma_write_keeps_durable(v: FsView, fd: u32, data: Seq<u8>, offset: u32)
    requires
        v.wf(),
        v.durable(),
    ensures
        v.write_file(fd, data, offset).0.durable(),
{
    if v.is_open(fd) && offset <= v.file_of(fd).size && data.len() > 0 {
        lemma_open_descriptor(v, fd);
        let idx = v.index_of(fd);
        if !(offset + data.len() <= v.files[idx].size || offset + data.len() > u32::MAX) {
            lemma_grown_keeps_durable(v, idx, (offset + data.len()) as nat);
            lemma_grown_wf(v, idx, (offset + data.len()) as nat);
        }
    }
}

/// Closing a descriptor keeps the rules of the data model and keeps the
/// region in step with the records.
pub proof fn lemma_close_keeps_consistent_and_durable(v: FsView, fd: u32)
    requires
        v.wf(),
    ensures
        v.consistent() ==> v.close_file(fd).0.consistent(),
        v.durable() ==> v.close_file(fd).0.durable(),
{
    lemma_close_keeps_records(v, fd);
    lemma_same_records(v, v.close_file(fd).0);
}

/// Opening a file, also one that is created by it, keeps the rules of the
/// data model and keeps the region in step with the records.
pub proof fn lemma_open_keeps_consistent_and_durable(v: FsView, name: Seq<u8>, mode: u32)
    requires
        v.wf(),
    ensures
        v.consistent() ==> v.open_file(name, mode).0.consistent(),
        v.durable() ==> v.open_file(name, mode).0.durable(),
{
    let w = v.open_file(name, mode).0;
    lemma_lookup(v.files, name, v.files.len());
    lemma_lowest_free(v.file_array, MAX_NUM_FD as nat);
    if w.files.len() == v.files.len() {
        lemma_same_records(v, w);
    } else {
        let n = v.with_new_file(name);
        lemma_lowest_free(n.file_array, MAX_NUM_FD as nat);
        if v.consistent() {
            lemma_with_new_file_keeps_consistent(v, name);
        }
        if v.durable() {
            lemma_with_new_file_keeps_durable(v, name);
        }
        lemma_with_new_file_wf(v, name);
        lemma_same_records(n, w);
    }
}

/// A filesystem that starts on a device without the signature obeys the
/// rules of the data model, and what it registers can be found again where
/// the device has the blocks of the directory region.
pub proof fn lemma_formatted_is_consistent_and_durable(disk: DiskView, partition_num_blocks: nat)
    requires
        disk.wf(),
        directory_image(disk).subrange(0, 4) != dir_signature(),
    ensures
        initialized(disk, partition_num_blocks).consistent(),
        disk.num_blocks() >= DIR_DATA_NUM_BLOCKS ==> initialized(
            disk,
            partition_num_blocks,
        ).durable(),
{
    let v = initialized(disk, partition_num_blocks);
    crate::invariants::lemma_store_clamped_wf(disk, 0, v.dir_data);
    assert(v.dir_data.subrange(4, 6) =~= seq![0u8, 0u8]);
}

} // verus!
