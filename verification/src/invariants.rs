//! Every operation keeps the state of the filesystem well formed.

use vstd::prelude::*;
use crate::layout::MAX_NUM_FD;
use crate::layout::FILE_OPEN_MODE;
use crate::layout::FILE_OPEN_CREATE_MODE;
use crate::layout::STORAGE_BLOCK_SIZE;
use crate::layout::DIR_HEADER_SIZE;
use crate::layout::dir_signature;
use crate::codec::splice;
use crate::codec::zeros;
use crate::disk::DiskView;
use crate::disk::lemma_store_wf;
use crate::disk::lemma_store_nothing;
use crate::file::FileView;
use crate::block_io::byte_address;
use crate::directory::laid_out;
use crate::directory::slot_decodes;
use crate::directory::record_bytes;
use crate::directory::can_add_record;
use crate::directory::with_record_added;
use crate::directory::declared_count;
use crate::directory::directory_image;
use crate::directory::lemma_decode_written;
use crate::directory::lemma_decode_local;
use crate::directory::lemma_decoded_is_laid_out;
use crate::growth::growth_plan;
use crate::growth::zero_filled;
use crate::growth::with_record_rewritten;
use crate::model::FsView;
use crate::model::initialized;
use crate::model::lemma_lookup;
use crate::model::lemma_lowest_free;

verus! {

/// What an open descriptor stands for: a descriptor from 2 on, and a file
/// that is registered, open, and whose record is well formed.
pub proof fn lemma_open_descriptor(v: FsView, fd: u32)
    requires
        v.wf(),
        v.is_open(fd),
    ensures
        2 <= fd < MAX_NUM_FD,
        0 <= v.index_of(fd) < v.files.len(),
        v.file_of(fd).opened,
        v.file_of(fd).wf(),
        v.stands_for(fd as int, v.index_of(fd)),
{
    assert(v.bound_to_open_file(fd as int));
    assert(v.files[v.index_of(fd)].wf());
}

/// Storing as much as the device has room for keeps it well formed.
pub proof fn lemma_store_clamped_wf(d: DiskView, addr: nat, data: Seq<u8>)
    requires
        d.wf(),
    ensures
        d.store_clamped(addr, data).wf(),
        d.store_clamped(addr, data).num_blocks() == d.num_blocks(),
{
    let n = d.bytes_within(addr, data.len());
    if n == 0 {
        assert(data.subrange(0, 0) =~= Seq::<u8>::empty());
        lemma_store_nothing(d, addr);
    } else {
        lemma_store_wf(d, addr, data.subrange(0, n as int));
    }
}

/// A filesystem starts in a well-formed state, whatever the device holds.
pub proof fn lemma_initialized_wf(disk: DiskView, partition_num_blocks: nat)
    requires
        disk.wf(),
        partition_num_blocks <= u32::MAX,
    ensures
        initialized(disk, partition_num_blocks).wf(),
{
    let v = initialized(disk, partition_num_blocks);
    let image = directory_image(disk);
    if image.subrange(0, 4) == dir_signature() {
        lemma_decoded_is_laid_out(image, DIR_HEADER_SIZE as int, declared_count(image));
    } else {
        lemma_store_clamped_wf(disk, 0, v.dir_data);
        assert(v.dir_data.subrange(0, 4) =~= dir_signature());
    }
    assert forall|fd: int| 0 <= fd < MAX_NUM_FD implies #[trigger] v.bound_to_open_file(fd) by {}
    assert forall|fd1: int, fd2: int|
        0 <= fd1 < MAX_NUM_FD && 0 <= fd2 < MAX_NUM_FD implies #[trigger] v.bound_apart(
        fd1,
        fd2,
    ) by {}
    assert forall|i: int| 0 <= i < v.files.len() implies #[trigger] v.open_is_bound(i) by {
        assert(!v.files[i].opened);
    }
    assert forall|i: int, j: int| 0 <= j < i < v.files.len() implies #[trigger] v.other_name_if_open(
        i,
        j,
    ) by {
        assert(!v.files[i].opened);
    }
}

/// Records that differ only in whether they are open lie in the region
/// alike.
pub proof fn lemma_laid_out_same_slots(
    data: Seq<u8>,
    cursor: nat,
    files: Seq<FileView>,
    other: Seq<FileView>,
)
    requires
        laid_out(data, cursor, files),
        other.len() == files.len(),
        forall|k: int| 0 <= k < files.len() ==> (#[trigger] other[k]).closed() == files[k].closed(),
    ensures
        laid_out(data, cursor, other),
{
    assert forall|i: int| 0 <= i < other.len() implies {
        &&& (#[trigger] other[i]).wf()
        &&& DIR_HEADER_SIZE <= other[i].dir_data_off
        &&& other[i].slot_end() <= cursor
        &&& slot_decodes(data, other[i])
    } by {
        assert(other[i].closed() == files[i].closed());
        assert(files[i].wf());
    }
    assert forall|i: int, j: int|
        #![trigger other[i], other[j]]
        0 <= i < j < other.len() implies other[i].slot_end() <= other[j].dir_data_off by {
        assert(other[i].closed() == files[i].closed());
        assert(other[j].closed() == files[j].closed());
        assert(files[i].slot_end() <= files[j].dir_data_off);
    }
}

/// The descriptor table stays in order where the descriptors stay and the
/// records keep their names and stay open or closed as they are.
pub proof fn lemma_table_stays(v: FsView, w: FsView)
    requires
        v.table_wf(),
        w.file_array == v.file_array,
        w.files.len() >= v.files.len(),
        forall|i: int|
            0 <= i < v.files.len() ==> (#[trigger] w.files[i]).opened == v.files[i].opened
                && w.files[i].name == v.files[i].name,
        forall|i: int| v.files.len() <= i < w.files.len() ==> !(#[trigger] w.files[i]).opened,
    ensures
        w.table_wf(),
{
    assert forall|fd: int| 0 <= fd < MAX_NUM_FD implies #[trigger] w.bound_to_open_file(fd) by {
        assert(v.bound_to_open_file(fd));
        if v.file_array[fd] != 0 {
            assert(w.files[v.file_array[fd] - 1].opened == v.files[v.file_array[fd] - 1].opened);
        }
    }
    assert forall|fd1: int, fd2: int|
        0 <= fd1 < MAX_NUM_FD && 0 <= fd2 < MAX_NUM_FD implies #[trigger] w.bound_apart(
        fd1,
        fd2,
    ) by {
        assert(v.bound_apart(fd1, fd2));
    }
    assert forall|i: int| 0 <= i < w.files.len() implies #[trigger] w.open_is_bound(i) by {
        if w.files[i].opened {
            assert(i < v.files.len());
            assert(v.open_is_bound(i));
            let fd = choose|fd: int| #[trigger] v.stands_for(fd, i);
            assert(w.stands_for(fd, i));
        }
    }
    assert forall|i: int, j: int| 0 <= j < i < w.files.len() implies #[trigger] w.other_name_if_open(
        i,
        j,
    ) by {
        if w.files[i].opened {
            assert(i < v.files.len());
            assert(v.other_name_if_open(i, j));
            assert(w.files[j].name == v.files[j].name);
        }
    }
}

/// Binding a closed file that is the first of its name keeps the descriptor
/// table in order.
pub proof fn lemma_bind_table_wf(v: FsView, i: int)
    requires
        v.table_wf(),
        0 <= i < v.files.len(),
        !v.files[i].opened,
        forall|j: int| 0 <= j < i ==> (#[trigger] v.files[j]).name != v.files[i].name,
    ensures
        v.bind(i).0.table_wf(),
{
    lemma_lowest_free(v.file_array, MAX_NUM_FD as nat);
    match v.lowest_free_fd() {
        None => {},
        Some(free) => {
            let w = v.bind(i).0;
            let fd = free as int;
            assert forall|k: int| 0 <= k < MAX_NUM_FD implies #[trigger] w.bound_to_open_file(
                k,
            ) by {
                assert(v.bound_to_open_file(k));
            }
            assert forall|fd1: int, fd2: int|
                0 <= fd1 < MAX_NUM_FD && 0 <= fd2 < MAX_NUM_FD implies #[trigger] w.bound_apart(
                fd1,
                fd2,
            ) by {
                assert(v.bound_apart(fd1, fd2));
                assert(v.bound_to_open_file(fd1));
                assert(v.bound_to_open_file(fd2));
            }
            assert forall|k: int| 0 <= k < w.files.len() implies #[trigger] w.open_is_bound(
                k,
            ) by {
                if k == i {
                    assert(w.stands_for(fd, i));
                } else if w.files[k].opened {
                    assert(v.open_is_bound(k));
                    let old_fd = choose|old_fd: int| #[trigger] v.stands_for(old_fd, k);
                    assert(w.stands_for(old_fd, k));
                }
            }
            assert forall|a: int, b: int|
                0 <= b < a < w.files.len() implies #[trigger] w.other_name_if_open(a, b) by {
                if a == i {
                    assert(v.files[b].name != v.files[i].name);
                } else {
                    assert(v.other_name_if_open(a, b));
                }
            }
        },
    }
}

/// Binding a closed file that is the first of its name keeps the state well
/// formed.
pub proof fn lemma_bind_wf(v: FsView, i: int)
    requires
        v.wf(),
        0 <= i < v.files.len(),
        !v.files[i].opened,
        forall|j: int| 0 <= j < i ==> (#[trigger] v.files[j]).name != v.files[i].name,
    ensures
        v.bind(i).0.wf(),
{
    lemma_bind_table_wf(v, i);
    lemma_laid_out_same_slots(v.dir_data, v.dir_data_ptr, v.files, v.bind(i).0.files);
}

/// Closing a descriptor keeps the descriptor table in order.
pub proof fn lemma_close_table_wf(v: FsView, fd: u32)
    requires
        v.wf(),
        v.is_open(fd),
    ensures
        v.close_file(fd).0.table_wf(),
{
    let w = v.close_file(fd).0;
    let i = v.index_of(fd);
    lemma_open_descriptor(v, fd);
    assert forall|k: int| 0 <= k < MAX_NUM_FD implies #[trigger] w.bound_to_open_file(k) by {
        assert(v.bound_to_open_file(k));
        assert(v.bound_apart(k, fd as int));
    }
    assert forall|fd1: int, fd2: int|
        0 <= fd1 < MAX_NUM_FD && 0 <= fd2 < MAX_NUM_FD implies #[trigger] w.bound_apart(
        fd1,
        fd2,
    ) by {
        assert(v.bound_apart(fd1, fd2));
    }
    assert forall|k: int| 0 <= k < w.files.len() implies #[trigger] w.open_is_bound(k) by {
        if w.files[k].opened {
            assert(k != i);
            assert(v.open_is_bound(k));
            let old_fd = choose|old_fd: int| #[trigger] v.stands_for(old_fd, k);
            assert(w.stands_for(old_fd, k));
        }
    }
    assert forall|a: int, b: int| 0 <= b < a < w.files.len() implies #[trigger] w.other_name_if_open(
        a,
        b,
    ) by {
        assert(v.other_name_if_open(a, b));
    }
}

/// Closing a descriptor keeps the state well formed.
pub proof fn lemma_close_file_wf(v: FsView, fd: u32)
    requires
        v.wf(),
    ensures
        v.close_file(fd).0.wf(),
{
    if v.is_open(fd) {
        lemma_open_descriptor(v, fd);
        lemma_close_table_wf(v, fd);
        lemma_laid_out_same_slots(v.dir_data, v.dir_data_ptr, v.files, v.close_file(fd).0.files);
    }
}

/// Adding a record at the cursor keeps the records laid out in the region,
/// and keeps the signature.
pub proof fn lemma_added_is_laid_out(data: Seq<u8>, cursor: nat, files: Seq<FileView>, f: FileView)
    requires
        laid_out(data, cursor, files),
        can_add_record(data, cursor, f.name.len()),
        f.wf(),
        f.dir_data_off == cursor,
    ensures
        laid_out(
            with_record_added(data, cursor, f),
            cursor + f.slot_len(),
            files.push(f),
        ),
        with_record_added(data, cursor, f).subrange(0, 4) == data.subrange(0, 4),
{
    let other = with_record_added(data, cursor, f);
    let first = splice(data, cursor as int, record_bytes(f));
    let now = files.push(f);
    assert(f == (FileView { dir_data_off: cursor, ..f }));
    lemma_decode_written(data, f);
    assert(other.subrange(0, 4) =~= data.subrange(0, 4));
    assert forall|i: int| 0 <= i < now.len() implies {
        &&& (#[trigger] now[i]).wf()
        &&& DIR_HEADER_SIZE <= now[i].dir_data_off
        &&& now[i].slot_end() <= cursor + f.slot_len()
        &&& slot_decodes(other, now[i])
    } by {
        if i < files.len() {
            assert(now[i] == files[i]);
            lemma_decode_local(data, other, files[i]);
        } else {
            lemma_decode_local(first, other, f);
        }
    }
    assert forall|i: int, j: int|
        #![trigger now[i], now[j]]
        0 <= i < j < now.len() implies now[i].slot_end() <= now[j].dir_data_off by {
        assert(now[i] == files[i]);
        if j < files.len() {
            assert(now[j] == files[j]);
        }
    }
}

/// Registering a new file whose record the region can take keeps the state
/// well formed, and the new file is the last one and closed.
pub proof fn lemma_with_new_file_wf(v: FsView, name: Seq<u8>)
    requires
        v.wf(),
        can_add_record(v.dir_data, v.dir_data_ptr, name.len()),
    ensures
        v.with_new_file(name).wf(),
        v.with_new_file(name).files.len() == v.files.len() + 1,
        v.with_new_file(name).files[v.files.len() as int].name == name,
        !v.with_new_file(name).files[v.files.len() as int].opened,
        v.with_new_file(name).file_array == v.file_array,
        forall|i: int|
            0 <= i < v.files.len() ==> #[trigger] v.with_new_file(name).files[i] == v.files[i],
{
    let w = v.with_new_file(name);
    let f = w.files[v.files.len() as int];
    lemma_store_clamped_wf(v.disk, 0, w.dir_data);
    lemma_added_is_laid_out(v.dir_data, v.dir_data_ptr, v.files, f);
    lemma_table_stays(v, w);
}

/// Opening a file keeps the state well formed.
pub proof fn lemma_open_file_wf(v: FsView, name: Seq<u8>, mode: u32)
    requires
        v.wf(),
    ensures
        v.open_file(name, mode).0.wf(),
{
    lemma_lookup(v.files, name, v.files.len());
    if mode == FILE_OPEN_MODE || mode == FILE_OPEN_CREATE_MODE {
        match v.lookup(name) {
            Some(i) => {
                if !v.files[i].opened {
                    lemma_bind_wf(v, i);
                }
            },
            None => {
                if mode == FILE_OPEN_CREATE_MODE && can_add_record(
                    v.dir_data,
                    v.dir_data_ptr,
                    name.len(),
                ) {
                    lemma_with_new_file_wf(v, name);
                    let w = v.with_new_file(name);
                    assert forall|j: int| 0 <= j < v.files.len() implies (#[trigger] w.files[j]).name
                        != w.files[v.files.len() as int].name by {
                        assert(w.files[j] == v.files[j]);
                    }
                    lemma_bind_wf(w, v.files.len() as int);
                }
            },
        }
    }
}

/// Rewriting one record with another extent and size keeps the records
/// laid out in the region, and keeps the region's header.
pub proof fn lemma_rewritten_is_laid_out(
    data: Seq<u8>,
    cursor: nat,
    files: Seq<FileView>,
    idx: int,
    g: FileView,
)
    requires
        laid_out(data, cursor, files),
        0 <= idx < files.len(),
        g.wf(),
        g == files[idx].resized(g.start_block, g.num_blocks, g.size),
    ensures
        with_record_rewritten(data, g) == splice(data, g.dir_data_off as int, record_bytes(g)),
        laid_out(with_record_rewritten(data, g), cursor, files.update(idx, g)),
        with_record_rewritten(data, g).subrange(0, DIR_HEADER_SIZE as int) == data.subrange(
            0,
            DIR_HEADER_SIZE as int,
        ),
{
    let other = with_record_rewritten(data, g);
    let now = files.update(idx, g);
    assert(files[idx].wf() && DIR_HEADER_SIZE <= files[idx].dir_data_off && files[idx].slot_end()
        <= cursor);
    lemma_decode_written(data, g);
    assert(other.subrange(0, DIR_HEADER_SIZE as int) =~= data.subrange(0, DIR_HEADER_SIZE as int));
    assert forall|i: int| 0 <= i < now.len() implies {
        &&& (#[trigger] now[i]).wf()
        &&& DIR_HEADER_SIZE <= now[i].dir_data_off
        &&& now[i].slot_end() <= cursor
        &&& slot_decodes(other, now[i])
    } by {
        if i != idx {
            assert(now[i] == files[i]);
            if i < idx {
                assert(files[i].slot_end() <= files[idx].dir_data_off);
            } else {
                assert(files[idx].slot_end() <= files[i].dir_data_off);
            }
            lemma_decode_local(data, other, files[i]);
        }
    }
    assert forall|i: int, j: int|
        #![trigger now[i], now[j]]
        0 <= i < j < now.len() implies now[i].slot_end() <= now[j].dir_data_off by {
        assert(files[i].slot_end() <= files[j].dir_data_off);
    }
}

/// The extent that a growth plans fits the fields of a record.
pub proof fn lemma_plan_fits_record(files: Seq<FileView>, idx: int, size: nat, partition: nat)
    requires
        0 <= idx < files.len(),
        files[idx].wf(),
        size <= u32::MAX,
        partition <= u32::MAX,
        growth_plan(files, idx, size, partition) is Some,
    ensures
        ({
            let plan = growth_plan(files, idx, size, partition)->Some_0;
            files[idx].resized(plan.start_block, plan.num_blocks, size).wf()
        }),
{
}

/// Asking a file to grow keeps the state well formed, and changes neither
/// the number of files nor the descriptors nor any other file's record.
pub proof fn lemma_grown_wf(v: FsView, idx: int, size: nat)
    requires
        v.wf(),
        0 <= idx < v.files.len(),
        v.files[idx].size < size <= u32::MAX,
    ensures
        v.grown(idx, size).wf(),
        v.grown(idx, size).files.len() == v.files.len(),
        v.grown(idx, size).file_array == v.file_array,
        v.grown(idx, size).files[idx].opened == v.files[idx].opened,
        v.grown(idx, size).files[idx].name == v.files[idx].name,
        v.grown(idx, size).dir_data.len() == v.dir_data.len(),
        v.grown(idx, size).disk.bytes.len() == v.disk.bytes.len(),
        forall|i: int|
            0 <= i < v.files.len() && i != idx ==> #[trigger] v.grown(idx, size).files[i]
                == v.files[i],
{
    match growth_plan(v.files, idx, size, v.partition_num_blocks) {
        None => {},
        Some(plan) => {
            let w = v.grown(idx, size);
            let g = w.files[idx];
            assert(v.files[idx].wf());
            lemma_plan_fits_record(v.files, idx, size, v.partition_num_blocks);
            lemma_rewritten_is_laid_out(v.dir_data, v.dir_data_ptr, v.files, idx, g);
            assert(w.dir_data.subrange(0, 4) =~= w.dir_data.subrange(
                0,
                DIR_HEADER_SIZE as int,
            ).subrange(0, 4));
            assert(v.dir_data.subrange(0, 4) =~= v.dir_data.subrange(
                0,
                DIR_HEADER_SIZE as int,
            ).subrange(0, 4));
            assert(w.disk.wf() && w.disk.bytes.len() == v.disk.bytes.len()) by {
                lemma_store_clamped_wf(
                    v.disk,
                    plan.fill_start * STORAGE_BLOCK_SIZE as nat,
                    zeros(plan.fill_count * STORAGE_BLOCK_SIZE as nat),
                );
                lemma_store_clamped_wf(
                    zero_filled(v.disk, plan.fill_start, plan.fill_count),
                    0,
                    w.dir_data,
                );
            }
            lemma_table_stays(v, w);
        },
    }
}

/// What a write that gets as far as storing bytes does, step by step: the
/// file is asked to grow, and then the bytes are stored in the state that
/// the growth left.
pub proof fn lemma_write_in_steps(v: FsView, fd: u32, data: Seq<u8>, offset: u32)
    requires
        v.wf(),
        v.is_open(fd),
        offset <= v.file_of(fd).size,
        data.len() > 0,
    ensures
        ({
            let idx = v.index_of(fd);
            let grown = v.grown_for_write(idx, data.len(), offset as nat);
            let g = grown.files[idx];
            let w = v.write_file(fd, data, offset).0;
            &&& 0 <= idx < v.files.len()
            &&& grown.wf()
            &&& grown.files.len() == v.files.len()
            &&& grown.file_array == v.file_array
            &&& grown.disk.bytes.len() == v.disk.bytes.len()
            &&& g.name == v.files[idx].name
            &&& g.opened
            &&& g.wf()
            &&& forall|i: int|
                0 <= i < v.files.len() && i != idx ==> #[trigger] grown.files[i] == v.files[i]
            &&& offset >= g.size ==> w == v
            &&& offset < g.size ==> w == (FsView {
                disk: grown.disk.store(
                    byte_address(g.start_block, offset as nat),
                    data.subrange(
                        0,
                        grown.transfer_len(g, data.len(), offset as nat) as int,
                    ),
                ),
                ..grown
            })
        }),
{
    lemma_open_descriptor(v, fd);
    let idx = v.index_of(fd);
    if !(offset + data.len() <= v.files[idx].size || offset + data.len() > u32::MAX) {
        lemma_grown_wf(v, idx, (offset + data.len()) as nat);
    }
}

/// Storing bytes on the device changes nothing but the device, and keeps the
/// state well formed.
pub proof fn lemma_stored_wf(v: FsView, addr: nat, data: Seq<u8>)
    requires
        v.wf(),
        data.len() == 0 || addr + data.len() <= v.disk.bytes.len(),
    ensures
        (FsView { disk: v.disk.store(addr, data), ..v }).wf(),
{
    let w = FsView { disk: v.disk.store(addr, data), ..v };
    if data.len() == 0 {
        assert(data =~= Seq::<u8>::empty());
        lemma_store_nothing(v.disk, addr);
    } else {
        lemma_store_wf(v.disk, addr, data);
    }
    lemma_table_stays(v, w);
}

/// Writing to a file keeps the state well formed.
pub proof fn lemma_write_file_wf(v: FsView, fd: u32, data: Seq<u8>, offset: u32)
    requires
        v.wf(),
    ensures
        v.write_file(fd, data, offset).0.wf(),
{
    if v.is_open(fd) && offset <= v.file_of(fd).size && data.len() > 0 {
        lemma_write_in_steps(v, fd, data, offset);
        let idx = v.index_of(fd);
        let grown = v.grown_for_write(idx, data.len(), offset as nat);
        let g = grown.files[idx];
        if offset < g.size {
            let n = grown.transfer_len(g, data.len(), offset as nat);
            lemma_stored_wf(
                grown,
                byte_address(g.start_block, offset as nat),
                data.subrange(0, n as int),
            );
        }
    }
}

/// Closing a descriptor changes nothing of the records but whether one of
/// them is open, and nothing of the region and the device.
pub proof fn lemma_close_keeps_records(v: FsView, fd: u32)
    requires
        v.wf(),
    ensures
        v.close_file(fd).0.files.len() == v.files.len(),
        forall|i: int|
            0 <= i < v.files.len() ==> (#[trigger] v.close_file(fd).0.files[i]).closed()
                == v.files[i].closed(),
        v.close_file(fd).0.dir_data == v.dir_data,
        v.close_file(fd).0.dir_data_ptr == v.dir_data_ptr,
        v.close_file(fd).0.partition_num_blocks == v.partition_num_blocks,
        v.close_file(fd).0.disk == v.disk,
{
    if v.is_open(fd) {
        lemma_open_descriptor(v, fd);
    }
}

/// Opening a file changes nothing of the records that were there but
/// whether one of them is open; a record that it adds is the last one and
/// stands for an empty file without blocks. The device keeps its size.
pub proof fn lemma_open_keeps_records(v: FsView, name: Seq<u8>, mode: u32)
    requires
        v.wf(),
    ensures
        v.open_file(name, mode).0.files.len() == v.files.len() || v.open_file(
            name,
            mode,
        ).0.files.len() == v.files.len() + 1,
        forall|i: int|
            0 <= i < v.files.len() ==> (#[trigger] v.open_file(name, mode).0.files[i]).closed()
                == v.files[i].closed(),
        v.open_file(name, mode).0.files.len() == v.files.len() + 1 ==> {
            &&& can_add_record(v.dir_data, v.dir_data_ptr, name.len())
            &&& v.open_file(name, mode).0.files[v.files.len() as int].closed() == v.with_new_file(
                name,
            ).files[v.files.len() as int]
            &&& v.open_file(name, mode).0.dir_data == v.with_new_file(name).dir_data
            &&& v.open_file(name, mode).0.dir_data_ptr == v.with_new_file(name).dir_data_ptr
        },
        v.open_file(name, mode).0.files.len() == v.files.len() ==> {
            &&& v.open_file(name, mode).0.dir_data == v.dir_data
            &&& v.open_file(name, mode).0.dir_data_ptr == v.dir_data_ptr
        },
        v.open_file(name, mode).0.partition_num_blocks == v.partition_num_blocks,
        v.open_file(name, mode).0.disk.num_blocks() == v.disk.num_blocks(),
{
    lemma_lookup(v.files, name, v.files.len());
    lemma_lowest_free(v.file_array, MAX_NUM_FD as nat);
    let n = v.with_new_file(name);
    lemma_lowest_free(n.file_array, MAX_NUM_FD as nat);
    lemma_store_clamped_wf(v.disk, 0, n.dir_data);
    assert forall|i: int| 0 <= i < v.files.len() implies (#[trigger] v.open_file(
        name,
        mode,
    ).0.files[i]).closed() == v.files[i].closed() by {
        assert(n.files[i] == v.files[i]);
    }
}

} // verus!
