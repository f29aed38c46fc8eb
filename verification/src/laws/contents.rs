//! What holds of the bytes of files: what a read yields, that what was
//! written is read back, and that a write to one file leaves the others
//! alone.

use vstd::prelude::*;
use crate::layout::MAX_NUM_FD;
use crate::layout::FILE_OPEN_MODE;
use crate::layout::STORAGE_BLOCK_SIZE;
use crate::layout::DIR_DATA_SIZE;
use crate::error::FsError;
use crate::codec::splice;
use crate::disk::DiskView;
use crate::file::FileView;
use crate::block_io::byte_address;
use crate::growth::extents_overlap;
use crate::growth::growth_plan;
use crate::growth::zero_filled;
use crate::model::FsView;
use crate::invariants::lemma_write_in_steps;
use crate::invariants::lemma_open_descriptor;
use crate::model::lemma_lookup;
use crate::model::lemma_lowest_free;
use crate::invariants::lemma_close_file_wf;
use crate::invariants::lemma_write_file_wf;
use crate::invariants::lemma_grown_wf;
use crate::laws::extents::lemma_grown_keeps_extents_disjoint;
use crate::laws::extents::lemma_plan_is_sound;
use crate::laws::extents::lemma_grown_keeps_consistent;
use crate::laws::restart::lemma_bytes_behind_directory;

verus! {

/// Reading at or beyond the end of a file yields no bytes and leaves the
/// buffer as it is.
pub proof fn lemma_read_at_end(v: FsView, fd: u32, buf: Seq<u8>, offset: u32)
    requires
        v.wf(),
        v.is_open(fd),
        offset >= v.file_of(fd).size,
    ensures
        v.read_file(fd, buf, offset) == (buf, Ok::<u32, FsError>(0)),
{
    let f = v.file_of(fd);
    assert(splice(buf, 0, v.disk.load(byte_address(f.start_block, offset as nat), 0)) =~= buf);
}

/// Reading never yields more bytes than the file has from the offset on,
/// nor more than the buffer takes. Where the device holds the whole file, it
/// yields exactly the smaller of the two.
pub proof fn lemma_read_clamps(v: FsView, fd: u32, buf: Seq<u8>, offset: u32)
    requires
        v.wf(),
        v.is_open(fd),
        offset < v.file_of(fd).size,
    ensures
        v.read_file(fd, buf, offset).1 matches Ok(n) && n <= buf.len() && n <= v.file_of(fd).size
            - offset && (byte_address(v.file_of(fd).start_block, v.file_of(fd).size)
            <= v.disk.bytes.len() ==> n == buf.len() || n == v.file_of(fd).size - offset),
{
    lemma_open_descriptor(v, fd);
    assert(v.files[v.index_of(fd)].wf());
}

/// What a write that stored all its bytes leaves behind: the file reaches
/// at least to the end of the written range, the device holds the range, and
/// the device's bytes there are the bytes written.
pub proof fn lemma_full_write_stores(v: FsView, fd: u32, data: Seq<u8>, offset: u32)
    requires
        v.wf(),
        data.len() > 0,
        v.write_file(fd, data, offset).1 == Ok::<u32, FsError>(data.len() as u32),
        data.len() <= u32::MAX,
    ensures
        ({
            let w = v.write_file(fd, data, offset).0;
            let f = w.file_of(fd);
            let addr = byte_address(f.start_block, offset as nat);
            &&& v.is_open(fd)
            &&& w.wf()
            &&& w.is_open(fd)
            &&& w.index_of(fd) == v.index_of(fd)
            &&& f.name == v.file_of(fd).name
            &&& offset + data.len() <= f.size
            &&& addr + data.len() <= w.disk.bytes.len()
            &&& w.disk.load(addr, data.len()) == data
        }),
{
    lemma_write_file_wf(v, fd, data, offset);
    assert(v.is_open(fd));
    lemma_open_descriptor(v, fd);
    let idx = v.index_of(fd);
    let w = v.write_file(fd, data, offset).0;
    let f = w.file_of(fd);
    let addr = byte_address(f.start_block, offset as nat);
    if !(offset + data.len() <= v.files[idx].size || offset + data.len() > u32::MAX) {
        lemma_grown_wf(v, idx, (offset + data.len()) as nat);
    }
    let grown = v.grown_for_write(idx, data.len(), offset as nat);
    assert(grown.files[idx].wf());
    let n = grown.transfer_len(grown.files[idx], data.len(), offset as nat);
    assert(n as u32 == data.len() as u32);
    assert(n == data.len());
    assert(data.subrange(0, n as int) =~= data);
    assert(w.disk.load(addr, data.len()) =~= data);
}

/// Reading from a file whose bytes on the device are known yields them.
pub(crate) proof fn lemma_read_of_stored(
    r: FsView,
    fd: u32,
    f: FileView,
    data: Seq<u8>,
    offset: u32,
    buf: Seq<u8>,
)
    requires
        r.is_open(fd),
        r.file_of(fd).closed() == f.closed(),
        buf.len() == data.len(),
        data.len() <= u32::MAX,
        data.len() > 0 ==> {
            &&& offset + data.len() <= f.size
            &&& byte_address(f.start_block, offset as nat) + data.len() <= r.disk.bytes.len()
            &&& r.disk.load(byte_address(f.start_block, offset as nat), data.len()) == data
        },
    ensures
        r.read_file(fd, buf, offset) == (data, Ok::<u32, FsError>(data.len() as u32)),
{
    let g = r.file_of(fd);
    let addr = byte_address(g.start_block, offset as nat);
    let n = r.transfer_len(g, buf.len(), offset as nat);
    if data.len() == 0 {
        assert(n == 0);
        assert(splice(buf, 0, r.disk.load(addr, 0)) =~= data);
    } else {
        assert(n == data.len());
        assert(splice(buf, 0, data) =~= data);
    }
}

/// Reading right after a write that stored all its bytes yields the bytes
/// written.
pub proof fn lemma_read_after_write(v: FsView, fd: u32, data: Seq<u8>, offset: u32, buf: Seq<u8>)
    requires
        v.wf(),
        data.len() <= u32::MAX,
        v.write_file(fd, data, offset).1 == Ok::<u32, FsError>(data.len() as u32),
        v.is_open(fd),
        buf.len() == data.len(),
    ensures
        v.write_file(fd, data, offset).0.read_file(fd, buf, offset) == (
            data,
            Ok::<u32, FsError>(data.len() as u32),
        ),
{
    let w = v.write_file(fd, data, offset).0;
    lemma_open_descriptor(v, fd);
    if data.len() > 0 {
        lemma_full_write_stores(v, fd, data, offset);
    }
    lemma_read_of_stored(w, fd, w.file_of(fd), data, offset, buf);
}

/// A file that was open is found by its name once it is closed.
pub(crate) proof fn lemma_reopen_finds(w: FsView, s: FsView, idx: int, name: Seq<u8>)
    requires
        w.wf(),
        0 <= idx < w.files.len(),
        w.files[idx].opened,
        w.files[idx].name == name,
        s.files.len() == w.files.len(),
        forall|k: int| 0 <= k < w.files.len() ==> (#[trigger] s.files[k]).closed() == w.files[k].closed(),
    ensures
        s.lookup(name) == Some(idx),
{
    lemma_lookup(s.files, name, s.files.len());
    assert(s.files[idx].closed() == w.files[idx].closed());
    match s.lookup(name) {
        Some(i) => {
            if i < idx {
                assert(s.files[i].closed() == w.files[i].closed());
                assert(w.other_name_if_open(idx, i));
            }
        },
        None => {},
    }
}

/// What was written is read back after the file was closed and opened
/// again: a read of as many bytes, at the same offset, yields the bytes
/// written.
pub proof fn lemma_read_back_after_reopen(
    v: FsView,
    fd: u32,
    data: Seq<u8>,
    offset: u32,
    buf: Seq<u8>,
)
    requires
        v.wf(),
        data.len() <= u32::MAX,
        v.write_file(fd, data, offset).1 == Ok::<u32, FsError>(data.len() as u32),
        v.is_open(fd),
        buf.len() == data.len(),
    ensures
        ({
            let name = v.file_of(fd).name;
            let written = v.write_file(fd, data, offset).0;
            let closed = written.close_file(fd);
            let reopened = closed.0.open_file(name, FILE_OPEN_MODE);
            &&& closed.1 is Ok
            &&& reopened.1 is Ok
            &&& reopened.0.read_file(reopened.1->Ok_0, buf, offset) == (
                data,
                Ok::<u32, FsError>(data.len() as u32),
            )
        }),
{
    let name = v.file_of(fd).name;
    let w = v.write_file(fd, data, offset).0;
    lemma_write_file_wf(v, fd, data, offset);
    lemma_open_descriptor(v, fd);
    let idx = v.index_of(fd);
    if data.len() > 0 {
        lemma_full_write_stores(v, fd, data, offset);
    }
    assert(w.is_open(fd) && w.index_of(fd) == idx && w.file_of(fd).name == name);
    lemma_open_descriptor(w, fd);
    assert(w.files[idx].opened);
    let s = w.close_file(fd).0;
    lemma_close_file_wf(w, fd);
    lemma_reopen_finds(w, s, idx, name);
    let reopened = s.open_file(name, FILE_OPEN_MODE);
    assert(s.file_array[fd as int] == 0);
    assert(fd >= 2);
    lemma_lowest_free(s.file_array, MAX_NUM_FD as nat);
    let fd2 = reopened.1->Ok_0;
    lemma_read_of_stored(reopened.0, fd2, w.files[idx], data, offset, buf);
}

/// Bytes away from the place where something was stored are as they were.
pub(crate) proof fn lemma_store_elsewhere(d: DiskView, addr: nat, data: Seq<u8>, at: nat, len: nat)
    requires
        data.len() == 0 || at + len <= addr || addr + data.len() <= at,
        at + len <= d.bytes.len(),
    ensures
        d.store(addr, data).load(at, len) == d.load(at, len),
        d.store(addr, data).bytes.len() == d.bytes.len(),
        d.store_clamped(addr, data).load(at, len) == d.load(at, len),
        d.store_clamped(addr, data).bytes.len() == d.bytes.len(),
{
    assert(d.store(addr, data).load(at, len) =~= d.load(at, len));
    assert(d.store_clamped(addr, data).load(at, len) =~= d.load(at, len));
}

/// Two extents that have no block in common have no byte in common.
pub(crate) proof fn lemma_extents_apart(
    f: FileView,
    f_offset: nat,
    f_len: nat,
    g: FileView,
    g_offset: nat,
    g_len: nat,
)
    requires
        !extents_overlap(f, g),
        f.num_blocks > 0,
        g.num_blocks > 0,
        f_offset + f_len <= f.capacity(),
        g_offset + g_len <= g.capacity(),
    ensures
        byte_address(f.start_block, f_offset) + f_len <= byte_address(g.start_block, g_offset)
            || byte_address(g.start_block, g_offset) + g_len <= byte_address(
            f.start_block,
            f_offset,
        ),
{
}

/// Asking a file to grow leaves the bytes of every other file that obeys
/// the data model as they were.
pub(crate) proof fn lemma_grown_leaves_other_bytes(v: FsView, idx: int, size: nat, other: int, at: nat, len: nat)
    requires
        v.wf(),
        v.consistent(),
        0 <= idx < v.files.len(),
        0 <= other < v.files.len(),
        other != idx,
        v.files[idx].size < size <= u32::MAX,
        len > 0,
        at + len <= v.files[other].size,
        byte_address(v.files[other].start_block, at) + len <= v.disk.bytes.len(),
    ensures
        v.grown(idx, size).disk.load(byte_address(v.files[other].start_block, at), len)
            == v.disk.load(byte_address(v.files[other].start_block, at), len),
        v.grown(idx, size).disk.bytes.len() == v.disk.bytes.len(),
{
    match growth_plan(v.files, idx, size, v.partition_num_blocks) {
        None => {},
        Some(plan) => {
            let w = v.grown(idx, size);
            let f = v.files[idx];
            let g = w.files[idx];
            let h = v.files[other];
            let addr = byte_address(h.start_block, at);
            assert(h.size <= h.capacity());
            assert(h.num_blocks > 0);
            assert(f.size <= f.capacity());
            lemma_plan_is_sound(v.files, idx, size, v.partition_num_blocks);
            lemma_grown_keeps_extents_disjoint(v, idx, size);
            assert(w.files[other] == h);
            assert(!extents_overlap(g, h));
            let filled = zero_filled(v.disk, plan.fill_start, plan.fill_count);
            let fill_addr = plan.fill_start * STORAGE_BLOCK_SIZE as nat;
            let zeros = crate::codec::zeros(plan.fill_count * STORAGE_BLOCK_SIZE as nat);
            assert(zeros.len() == 0 || addr + len <= fill_addr || fill_addr + zeros.len() <= addr) by {
                if plan.fill_count > 0 {
                    lemma_extents_apart(
                        h,
                        at,
                        len,
                        g,
                        ((plan.fill_start - g.start_block) * STORAGE_BLOCK_SIZE) as nat,
                        zeros.len(),
                    );
                }
            }
            lemma_store_elsewhere(v.disk, fill_addr, zeros, addr, len);
            lemma_bytes_behind_directory(h, at);
            assert(w.dir_data.len() == DIR_DATA_SIZE) by {
                lemma_grown_wf(v, idx, size);
            }
            lemma_store_elsewhere(filled, 0, w.dir_data, addr, len);
        },
    }
}

/// A write leaves the descriptors as they are, and the names of the files.
pub(crate) proof fn lemma_write_keeps_descriptors(v: FsView, fd: u32, data: Seq<u8>, offset: u32)
    requires
        v.wf(),
        v.is_open(fd),
    ensures
        v.write_file(fd, data, offset).0.file_array == v.file_array,
        v.write_file(fd, data, offset).0.files.len() == v.files.len(),
        v.write_file(fd, data, offset).0.file_of(fd).name == v.file_of(fd).name,
{
    lemma_open_descriptor(v, fd);
    let idx = v.index_of(fd);
    if offset <= v.file_of(fd).size && data.len() > 0 {
        if !(offset + data.len() <= v.files[idx].size || offset + data.len() > u32::MAX) {
            lemma_grown_wf(v, idx, (offset + data.len()) as nat);
        }
    }
}

/// A read depends on the descriptor's file and on the bytes of the device
/// that the read takes: two states that agree in these yield the same.
pub(crate) proof fn lemma_read_depends(
    v: FsView,
    fd: u32,
    w: FsView,
    w_fd: u32,
    buf: Seq<u8>,
    offset: u32,
)
    requires
        v.is_open(fd),
        w.is_open(w_fd),
        w.file_of(w_fd).closed() == v.file_of(fd).closed(),
        w.disk.bytes.len() == v.disk.bytes.len(),
        ({
            let f = v.file_of(fd);
            let n = v.transfer_len(f, buf.len(), offset as nat);
            n > 0 ==> w.disk.load(byte_address(f.start_block, offset as nat), n) == v.disk.load(
                byte_address(f.start_block, offset as nat),
                n,
            )
        }),
    ensures
        w.read_file(w_fd, buf, offset) == v.read_file(fd, buf, offset),
{
    let f = v.file_of(fd);
    let n = v.transfer_len(f, buf.len(), offset as nat);
    let addr = byte_address(f.start_block, offset as nat);
    assert(w.transfer_len(w.file_of(w_fd), buf.len(), offset as nat) == n);
    if n == 0 {
        assert(w.disk.load(addr, 0) =~= v.disk.load(addr, 0));
    }
}

/// Storing bytes within one file leaves the bytes of every other file as
/// they were, where the files obey the data model.
pub(crate) proof fn lemma_store_leaves_other_bytes(
    s: FsView,
    idx: int,
    offset: nat,
    stored: Seq<u8>,
    other: int,
    at: nat,
    len: nat,
)
    requires
        s.consistent(),
        0 <= idx < s.files.len(),
        0 <= other < s.files.len(),
        other != idx,
        offset + stored.len() <= s.files[idx].size,
        len > 0,
        at + len <= s.files[other].size,
        byte_address(s.files[other].start_block, at) + len <= s.disk.bytes.len(),
    ensures
        s.disk.store(byte_address(s.files[idx].start_block, offset), stored).load(
            byte_address(s.files[other].start_block, at),
            len,
        ) == s.disk.load(byte_address(s.files[other].start_block, at), len),
{
    let g = s.files[idx];
    let h = s.files[other];
    let addr = byte_address(g.start_block, offset);
    let a2 = byte_address(h.start_block, at);
    assert(stored.len() == 0 || a2 + len <= addr || addr + stored.len() <= a2) by {
        if stored.len() > 0 {
            assert(g.size <= g.capacity());
            assert(h.size <= h.capacity());
            assert(!extents_overlap(h, g));
            lemma_extents_apart(h, at, len, g, offset, stored.len());
        }
    }
    lemma_store_elsewhere(s.disk, addr, stored, a2, len);
}

/// Growing one file and then storing bytes in it leaves what a read from
/// another open file yields.
proof fn lemma_steps_leave_other_files(
    v: FsView,
    idx: int,
    data: Seq<u8>,
    offset: u32,
    other: u32,
    buf: Seq<u8>,
    other_offset: u32,
)
    requires
        v.wf(),
        v.consistent(),
        v.is_open(other),
        0 <= idx < v.files.len(),
        v.index_of(other) != idx,
        data.len() > 0,
        offset <= v.files[idx].size,
        offset < v.grown_for_write(idx, data.len(), offset as nat).files[idx].size,
    ensures
        ({
            let grown = v.grown_for_write(idx, data.len(), offset as nat);
            let g = grown.files[idx];
            let w = FsView {
                disk: grown.disk.store(
                    byte_address(g.start_block, offset as nat),
                    data.subrange(
                        0,
                        grown.transfer_len(g, data.len(), offset as nat) as int,
                    ),
                ),
                ..grown
            };
            w.read_file(other, buf, other_offset) == v.read_file(other, buf, other_offset)
        }),
{
    let i2 = v.index_of(other);
    let grown = v.grown_for_write(idx, data.len(), offset as nat);
    let g = grown.files[idx];
    let n = grown.transfer_len(g, data.len(), offset as nat);
    let stored = data.subrange(0, n as int);
    let w = FsView { disk: grown.disk.store(byte_address(g.start_block, offset as nat), stored), ..grown };
    let h = v.files[i2];
    let n2 = v.transfer_len(h, buf.len(), other_offset as nat);
    let a2 = byte_address(h.start_block, other_offset as nat);
    let size = (offset + data.len()) as nat;
    let grows = !(offset + data.len() <= v.files[idx].size || offset + data.len() > u32::MAX);
    assert(0 <= i2 < v.files.len()) by {
        lemma_open_descriptor(v, other);
    }
    assert(grown.files.len() == v.files.len() && grown.file_array == v.file_array
        && grown.files[i2] == h && grown.disk.bytes.len() == v.disk.bytes.len()) by {
        if grows {
            lemma_grown_wf(v, idx, size);
        }
    }
    lemma_store_elsewhere(grown.disk, byte_address(g.start_block, offset as nat), stored, 0, 0);
    if n2 > 0 {
        assert(grown.consistent()) by {
            if grows {
                lemma_grown_keeps_consistent(v, idx, size);
            }
        }
        assert(grown.disk.load(a2, n2) == v.disk.load(a2, n2)) by {
            if grows {
                lemma_grown_leaves_other_bytes(v, idx, size, i2, other_offset as nat, n2);
            }
        }
        lemma_store_leaves_other_bytes(
            grown,
            idx,
            offset as nat,
            stored,
            i2,
            other_offset as nat,
            n2,
        );
    }
    lemma_read_depends(v, other, w, other, buf, other_offset);
}

/// A write to one file leaves every other file as it is: a read from
/// another open file yields after the write what it yielded before.
pub proof fn lemma_write_leaves_other_files(
    v: FsView,
    fd: u32,
    data: Seq<u8>,
    offset: u32,
    other: u32,
    buf: Seq<u8>,
    other_offset: u32,
)
    requires
        v.wf(),
        v.consistent(),
        v.is_open(other),
        other != fd,
    ensures
        v.write_file(fd, data, offset).0.read_file(other, buf, other_offset) == v.read_file(
            other,
            buf,
            other_offset,
        ),
{
    if v.is_open(fd) && offset <= v.file_of(fd).size && data.len() > 0 {
        let idx = v.index_of(fd);
        lemma_write_in_steps(v, fd, data, offset);
        assert(v.index_of(other) != idx) by {
            lemma_open_descriptor(v, fd);
            lemma_open_descriptor(v, other);
            assert(v.bound_apart(fd as int, other as int));
        }
        if offset < v.grown_for_write(idx, data.len(), offset as nat).files[idx].size {
            lemma_steps_leave_other_files(v, idx, data, offset, other, buf, other_offset);
        }
    }
}

} // verus!
