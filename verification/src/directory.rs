//! The directory region: the index of all files, kept in the first blocks of
//! the device.
//!
//! The region opens with a four-byte signature and a two-byte count of
//! records. The records follow one after the other. A record holds the
//! length of the name in two bytes, the name, a zero byte, and start block,
//! block count and size in four bytes each. All numbers are stored least
//! significant byte first.

use vstd::prelude::*;
use vstd::slice::slice_subrange;
use vstd::slice::slice_to_vec;
use crate::layout::DIR_DATA_NUM_BLOCKS;
use crate::layout::DIR_DATA_SIZE;
use crate::layout::DIR_HEADER_SIZE;
use crate::layout::DIR_RECORD_OVERHEAD;
use crate::layout::MAX_FILENAME_SIZE;
use crate::error::FsError;
use crate::codec::le16;
use crate::codec::le32;
use crate::codec::le16_bytes;
use crate::codec::le32_bytes;
use crate::codec::splice;
use crate::codec::zeros;
use crate::codec::lemma_le16_roundtrip;
use crate::codec::lemma_le32_roundtrip;
use crate::codec::lemma_le_bounds;
use crate::codec::read_u16;
use crate::codec::read_u32;
use crate::codec::push_u16;
use crate::codec::push_u32;
use crate::codec::push_bytes;
use crate::codec::copy_into;
use crate::disk::Disk;
use crate::disk::DiskView;
use crate::file::File;
use crate::file::FileView;
use crate::file::records;

verus! {

/// The bytes of a file's record.
pub open spec fn record_bytes(f: FileView) -> Seq<u8> {
    le16_bytes(f.name.len()) + f.name + seq![0u8] + le32_bytes(f.start_block) + le32_bytes(
        f.num_blocks,
    ) + le32_bytes(f.size)
}

/// The name length that the record at `off` declares.
pub open spec fn declared_name_len(data: Seq<u8>, off: int) -> int {
    le16(data.subrange(off, off + 2)) as int
}

/// The record that the bytes at `off` stand for. A record read from the
/// region is closed.
pub open spec fn decode_record(data: Seq<u8>, off: int) -> FileView {
    let n = declared_name_len(data, off);
    FileView {
        name: data.subrange(off + 2, off + 2 + n),
        start_block: le32(data.subrange(off + n + 3, off + n + 7)),
        num_blocks: le32(data.subrange(off + n + 7, off + n + 11)),
        size: le32(data.subrange(off + n + 11, off + n + 15)),
        dir_data_off: off as nat,
        opened: false,
    }
}

/// Whether the record at `off` can be taken: its length field and the size
/// that it declares lie within the region, and its name is not too long.
pub open spec fn record_fits(data: Seq<u8>, off: int) -> bool {
    &&& off + 2 <= DIR_DATA_SIZE
    &&& off + declared_name_len(data, off) + DIR_RECORD_OVERHEAD <= DIR_DATA_SIZE
    &&& declared_name_len(data, off) <= MAX_FILENAME_SIZE
}

/// The records that decoding yields when it starts at `off` and is to take
/// `count` records. It stops at the first record that cannot be taken.
pub open spec fn decode_records(data: Seq<u8>, off: int, count: nat) -> Seq<FileView>
    decreases count,
{
    if count == 0 || !record_fits(data, off) {
        Seq::empty()
    } else {
        seq![decode_record(data, off)] + decode_records(
            data,
            off + declared_name_len(data, off) + DIR_RECORD_OVERHEAD,
            (count - 1) as nat,
        )
    }
}

/// Where the cursor stands when decoding from `off` for `count` records has
/// ended. After a record whose name is too long it has passed the record's
/// length field; after one that runs over the region it has not moved.
pub open spec fn decode_cursor(data: Seq<u8>, off: int, count: nat) -> int
    decreases count,
{
    if count == 0 {
        off
    } else if !record_fits(data, off) {
        if off + 2 <= DIR_DATA_SIZE && off + declared_name_len(data, off) + DIR_RECORD_OVERHEAD
            <= DIR_DATA_SIZE {
            off + 2
        } else {
            off
        }
    } else {
        decode_cursor(
            data,
            off + declared_name_len(data, off) + DIR_RECORD_OVERHEAD,
            (count - 1) as nat,
        )
    }
}

/// The record count that the region's header declares.
pub open spec fn declared_count(data: Seq<u8>) -> nat {
    le16(data.subrange(4, 6))
}

/// The bytes at the record's place in the region decode to the record.
pub open spec fn slot_decodes(data: Seq<u8>, f: FileView) -> bool {
    &&& f.slot_end() <= data.len()
    &&& declared_name_len(data, f.dir_data_off as int) == f.name.len()
    &&& decode_record(data, f.dir_data_off as int) == f.closed()
}

/// The records lie in the region one behind the other, in the order of the
/// list, before the cursor, and each one's bytes decode to it.
pub open spec fn laid_out(data: Seq<u8>, cursor: nat, files: Seq<FileView>) -> bool {
    &&& data.len() == DIR_DATA_SIZE
    &&& DIR_HEADER_SIZE + DIR_RECORD_OVERHEAD * files.len() <= cursor <= DIR_DATA_SIZE
    &&& forall|i: int|
        0 <= i < files.len() ==> {
            &&& (#[trigger] files[i]).wf()
            &&& DIR_HEADER_SIZE <= files[i].dir_data_off
            &&& files[i].slot_end() <= cursor
            &&& slot_decodes(data, files[i])
        }
    &&& forall|i: int, j: int|
        #![trigger files[i], files[j]]
        0 <= i < j < files.len() ==> files[i].slot_end() <= files[j].dir_data_off
}

/// The region holds the records and nothing else: the header counts them,
/// the first follows the header, each next one follows the one before, and
/// the cursor stands behind the last.
pub open spec fn in_sync(data: Seq<u8>, cursor: nat, files: Seq<FileView>) -> bool {
    &&& declared_count(data) == files.len()
    &&& files.len() == 0 ==> cursor == DIR_HEADER_SIZE
    &&& files.len() > 0 ==> files[0].dir_data_off == DIR_HEADER_SIZE && cursor
        == files[files.len() - 1].slot_end()
    &&& forall|i: int, j: int|
        #![trigger files[i], files[j]]
        0 <= i < files.len() && j == i + 1 && j < files.len() ==> files[j].dir_data_off
            == files[i].slot_end()
}

/// The records, all closed.
pub open spec fn all_closed(files: Seq<FileView>) -> Seq<FileView> {
    Seq::new(files.len(), |i: int| files[i].closed())
}

/// The record that was written at a place is the record that is read there.
pub proof fn lemma_decode_written(data: Seq<u8>, f: FileView)
    requires
        f.wf(),
        f.slot_end() <= data.len(),
    ensures
        record_bytes(f).len() == f.slot_len(),
        slot_decodes(splice(data, f.dir_data_off as int, record_bytes(f)), f),
{
    let off = f.dir_data_off as int;
    let n = f.name.len() as int;
    let rec = record_bytes(f);
    let d = splice(data, off, rec);
    lemma_le16_roundtrip(n as nat);
    lemma_le32_roundtrip(f.start_block);
    lemma_le32_roundtrip(f.num_blocks);
    lemma_le32_roundtrip(f.size);
    assert(rec.len() == n + 15);
    assert(d.subrange(off, off + 2) =~= le16_bytes(n as nat));
    assert(declared_name_len(d, off) == n);
    assert(d.subrange(off + 2, off + 2 + n) =~= f.name);
    assert(d.subrange(off + n + 3, off + n + 7) =~= le32_bytes(f.start_block));
    assert(d.subrange(off + n + 7, off + n + 11) =~= le32_bytes(f.num_blocks));
    assert(d.subrange(off + n + 11, off + n + 15) =~= le32_bytes(f.size));
}

/// Bytes outside a record's place do not matter to what the record decodes
/// to.
pub proof fn lemma_decode_local(data: Seq<u8>, other: Seq<u8>, f: FileView)
    requires
        slot_decodes(data, f),
        other.len() == data.len(),
        forall|k: int| f.dir_data_off <= k < f.slot_end() ==> other[k] == data[k],
    ensures
        slot_decodes(other, f),
{
    let off = f.dir_data_off as int;
    assert(other.subrange(off, off + 2) =~= data.subrange(off, off + 2));
    let n = declared_name_len(data, off);
    assert(other.subrange(off + 2, off + 2 + n) =~= data.subrange(off + 2, off + 2 + n));
    assert(other.subrange(off + n + 3, off + n + 7) =~= data.subrange(off + n + 3, off + n + 7));
    assert(other.subrange(off + n + 7, off + n + 11) =~= data.subrange(
        off + n + 7,
        off + n + 11,
    ));
    assert(other.subrange(off + n + 11, off + n + 15) =~= data.subrange(
        off + n + 11,
        off + n + 15,
    ));
}

/// A region that is in sync with its records decodes to exactly those
/// records, from each record's place on.
pub proof fn lemma_decode_from(data: Seq<u8>, cursor: nat, files: Seq<FileView>, k: int)
    requires
        laid_out(data, cursor, files),
        in_sync(data, cursor, files),
        0 <= k <= files.len(),
    ensures
        decode_records(
            data,
            if k < files.len() {
                files[k].dir_data_off as int
            } else {
                cursor as int
            },
            (files.len() - k) as nat,
        ) == all_closed(files).subrange(k, files.len() as int),
        decode_cursor(
            data,
            if k < files.len() {
                files[k].dir_data_off as int
            } else {
                cursor as int
            },
            (files.len() - k) as nat,
        ) == cursor,
    decreases files.len() - k,
{
    let n = files.len() as int;
    if k < n {
        let f = files[k];
        let off = f.dir_data_off as int;
        assert(slot_decodes(data, f));
        assert(record_fits(data, off));
        if k + 1 < n {
            assert(files[k + 1].dir_data_off == files[k].slot_end());
        }
        lemma_decode_from(data, cursor, files, k + 1);
        assert(seq![f.closed()] + all_closed(files).subrange(k + 1, n) =~= all_closed(
            files,
        ).subrange(k, n));
    } else {
        assert(all_closed(files).subrange(k, n) =~= Seq::<FileView>::empty());
    }
}

/// A region that is in sync with its records decodes to exactly those
/// records, and decoding leaves the cursor where it stands.
pub proof fn lemma_decode_in_sync(data: Seq<u8>, cursor: nat, files: Seq<FileView>)
    requires
        laid_out(data, cursor, files),
        in_sync(data, cursor, files),
    ensures
        decode_records(data, DIR_HEADER_SIZE as int, declared_count(data)) == all_closed(files),
        decode_cursor(data, DIR_HEADER_SIZE as int, declared_count(data)) == cursor,
{
    lemma_decode_from(data, cursor, files, 0);
    assert(all_closed(files).subrange(0, files.len() as int) =~= all_closed(files));
}

/// What decoding yields lies in the region as `laid_out` asks, from the
/// place where decoding started on, and every record of it is closed.
pub proof fn lemma_decoded_is_laid_out(data: Seq<u8>, off: int, count: nat)
    requires
        data.len() == DIR_DATA_SIZE,
        DIR_HEADER_SIZE <= off <= DIR_DATA_SIZE,
    ensures
        ({
            let files = decode_records(data, off, count);
            let cursor = decode_cursor(data, off, count);
            &&& off + DIR_RECORD_OVERHEAD * files.len() <= cursor <= DIR_DATA_SIZE
            &&& forall|i: int|
                0 <= i < files.len() ==> {
                    &&& (#[trigger] files[i]).wf()
                    &&& off <= files[i].dir_data_off
                    &&& files[i].slot_end() <= cursor
                    &&& slot_decodes(data, files[i])
                    &&& !files[i].opened
                }
            &&& forall|i: int, j: int|
                #![trigger files[i], files[j]]
                0 <= i < j < files.len() ==> files[i].slot_end() <= files[j].dir_data_off
        }),
    decreases count,
{
    let files = decode_records(data, off, count);
    let cursor = decode_cursor(data, off, count);
    if count > 0 && record_fits(data, off) {
        let n = declared_name_len(data, off);
        let next = off + n + DIR_RECORD_OVERHEAD;
        let first = decode_record(data, off);
        let rest = decode_records(data, next, (count - 1) as nat);
        lemma_decoded_is_laid_out(data, next, (count - 1) as nat);
        lemma_le_bounds(data.subrange(off + n + 3, off + n + 7));
        lemma_le_bounds(data.subrange(off + n + 7, off + n + 11));
        lemma_le_bounds(data.subrange(off + n + 11, off + n + 15));
        assert(first.wf());
        assert(first.slot_end() == next);
        assert(slot_decodes(data, first));
        assert forall|i: int| 0 <= i < files.len() implies {
            &&& (#[trigger] files[i]).wf()
            &&& off <= files[i].dir_data_off
            &&& files[i].slot_end() <= cursor
            &&& slot_decodes(data, files[i])
            &&& !files[i].opened
        } by {
            if i > 0 {
                assert(files[i] == rest[i - 1]);
            }
        }
        assert forall|i: int, j: int|
            #![trigger files[i], files[j]]
            0 <= i < j < files.len() implies files[i].slot_end() <= files[j].dir_data_off by {
            assert(files[j] == rest[j - 1]);
            if i > 0 {
                assert(files[i] == rest[i - 1]);
            }
        }
    }
}

/// The bytes of `file`'s record, as the region stores them.
pub fn serialize_record(file: &File) -> (out: Vec<u8>)
    requires
        file@.name.len() <= MAX_FILENAME_SIZE,
    ensures
        out@ == record_bytes(file@),
        out@.len() == file@.slot_len(),
{
    let mut out: Vec<u8> = Vec::new();
    push_u16(&mut out, file.filename.len() as u16);
    push_bytes(&mut out, file.filename.as_slice());
    out.push(0u8);
    push_u32(&mut out, file.start_block);
    push_u32(&mut out, file.num_blocks);
    push_u32(&mut out, file.size);
    assert(out@ =~= record_bytes(file@));
    out
}

/// Writes `file`'s record at its place in the region. Fails with
/// `CapacityExceeded`, leaving the region as it is, when the name is longer
/// than `MAX_FILENAME_SIZE` or the record would run over the region's end.
pub fn update_file_in_directory(dir_data: &mut Vec<u8>, file: &File) -> (r: Result<(), FsError>)
    requires
        old(dir_data)@.len() == DIR_DATA_SIZE,
    ensures
        r is Ok <==> file@.name.len() <= MAX_FILENAME_SIZE && file@.slot_end() <= DIR_DATA_SIZE,
        r is Ok ==> final(dir_data)@ == splice(
            old(dir_data)@,
            file@.dir_data_off as int,
            record_bytes(file@),
        ),
        r is Err ==> r == Err::<(), FsError>(FsError::CapacityExceeded) && final(dir_data)@ == old(
            dir_data,
        )@,
{
    let dir_data_off: usize = file.dir_data_off as usize;
    let filename_size: usize = file.filename.len();
    if filename_size > MAX_FILENAME_SIZE {
        return Err(FsError::CapacityExceeded);
    }
    if dir_data_off > DIR_DATA_SIZE || filename_size + DIR_RECORD_OVERHEAD > DIR_DATA_SIZE
        - dir_data_off {
        return Err(FsError::CapacityExceeded);
    }
    let record: Vec<u8> = serialize_record(file);
    copy_into(dir_data.as_mut_slice(), dir_data_off, record.as_slice());
    Ok(())
}

/// Writes the whole region to the first blocks of the device. Where the
/// device is smaller than the region, the part that it has room for is
/// written.
pub fn flush_dir_data_to_storage(dir_data: &Vec<u8>, disk: &mut Disk)
    requires
        old(disk).wf(),
        dir_data@.len() == DIR_DATA_SIZE,
    ensures
        final(disk).wf(),
        final(disk)@ == old(disk)@.store_clamped(0, dir_data@),
{
    let ret: u32 = disk.write_blocks(dir_data.as_slice(), 0, DIR_DATA_NUM_BLOCKS as u32);
    proof {
        old(disk).lemma_view_wf();
        assert(ret == old(disk)@.bytes_within(0, DIR_DATA_SIZE as nat));
    }
}

/// What reading the region from a device yields: the device's first blocks,
/// and zeros where the device is smaller than the region.
pub open spec fn directory_image(disk: DiskView) -> Seq<u8> {
    splice(
        zeros(DIR_DATA_SIZE as nat),
        0,
        disk.load(0, disk.bytes_within(0, DIR_DATA_SIZE as nat)),
    )
}

/// Reads the region from the first blocks of the device.
pub fn read_dir_data_from_storage(disk: &Disk) -> (dir_data: Vec<u8>)
    requires
        disk.wf(),
    ensures
        dir_data@ == directory_image(disk@),
        dir_data@.len() == DIR_DATA_SIZE,
{
    let mut dir_data: Vec<u8> = vec![0u8; DIR_DATA_SIZE];
    assert(dir_data@ =~= zeros(DIR_DATA_SIZE as nat));
    let ret: u32 = disk.read_blocks(dir_data.as_mut_slice(), 0, DIR_DATA_NUM_BLOCKS as u32);
    proof {
        disk.lemma_view_wf();
        assert(ret == disk@.bytes_within(0, DIR_DATA_SIZE as nat));
    }
    dir_data
}

/// The region after `file`'s record was added at the cursor: the record's
/// bytes stand there, and the header counts one record more.
pub open spec fn with_record_added(data: Seq<u8>, cursor: nat, f: FileView) -> Seq<u8> {
    splice(
        splice(data, cursor as int, record_bytes(FileView { dir_data_off: cursor, ..f })),
        4,
        le16_bytes(declared_count(data) + 1),
    )
}

/// Whether the region can take a record for a name of `name_len` bytes at
/// the cursor: the name is not too long, the record ends within the region,
/// and the header's count can still be raised.
pub open spec fn can_add_record(data: Seq<u8>, cursor: nat, name_len: nat) -> bool {
    &&& name_len <= MAX_FILENAME_SIZE
    &&& cursor + name_len + DIR_RECORD_OVERHEAD <= DIR_DATA_SIZE
    &&& declared_count(data) < u16::MAX
}

/// Adds `file`'s record at the cursor: gives the file that place, writes the
/// record, moves the cursor behind it, raises the header's count, and writes
/// the region to the device. Fails with `CapacityExceeded`, changing nothing,
/// when the region cannot take the record.
pub fn add_file_to_directory(
    dir_data: &mut Vec<u8>,
    dir_data_ptr: &mut usize,
    file: &mut File,
    disk: &mut Disk,
) -> (r: Result<(), FsError>)
    requires
        old(disk).wf(),
        old(dir_data)@.len() == DIR_DATA_SIZE,
        DIR_HEADER_SIZE <= *old(dir_data_ptr) <= DIR_DATA_SIZE,
    ensures
        final(disk).wf(),
        final(dir_data)@.len() == DIR_DATA_SIZE,
        r is Ok <==> can_add_record(
            old(dir_data)@,
            *old(dir_data_ptr) as nat,
            old(file)@.name.len(),
        ),
        r is Ok ==> {
            &&& final(file)@ == (FileView { dir_data_off: *old(dir_data_ptr) as nat, ..old(file)@ })
            &&& final(dir_data)@ == with_record_added(
                old(dir_data)@,
                *old(dir_data_ptr) as nat,
                old(file)@,
            )
            &&& *final(dir_data_ptr) == *old(dir_data_ptr) + old(file)@.slot_len()
            &&& final(disk)@ == old(disk)@.store_clamped(0, final(dir_data)@)
        },
        r is Err ==> {
            &&& r == Err::<(), FsError>(FsError::CapacityExceeded)
            &&& final(file)@ == old(file)@
            &&& final(dir_data)@ == old(dir_data)@
            &&& *final(dir_data_ptr) == *old(dir_data_ptr)
            &&& final(disk)@ == old(disk)@
        },
{
    let count: u16 = read_u16(dir_data.as_slice(), 4);
    if count == u16::MAX {
        return Err(FsError::CapacityExceeded);
    }
    let filename_size: usize = file.filename.len();
    if filename_size > MAX_FILENAME_SIZE || filename_size + DIR_RECORD_OVERHEAD > DIR_DATA_SIZE
        - *dir_data_ptr {
        return Err(FsError::CapacityExceeded);
    }
    file.dir_data_off = *dir_data_ptr as u32;
    let updated: Result<(), FsError> = update_file_in_directory(dir_data, file);
    assert(updated is Ok);
    *dir_data_ptr = *dir_data_ptr + filename_size + DIR_RECORD_OVERHEAD;
    let mut header: Vec<u8> = Vec::new();
    push_u16(&mut header, count + 1);
    copy_into(dir_data.as_mut_slice(), 4, header.as_slice());
    assert(header@ =~= le16_bytes(declared_count(old(dir_data)@) + 1));
    flush_dir_data_to_storage(dir_data, disk);
    Ok(())
}

/// Decodes the records of a region whose signature was found. Returns the
/// records and the cursor behind the last one taken.
pub fn decode_directory(dir_data: &Vec<u8>) -> (r: (Vec<File>, usize))
    requires
        dir_data@.len() == DIR_DATA_SIZE,
    ensures
        records(r.0@) == decode_records(
            dir_data@,
            DIR_HEADER_SIZE as int,
            declared_count(dir_data@),
        ),
        r.1 == decode_cursor(dir_data@, DIR_HEADER_SIZE as int, declared_count(dir_data@)),
        laid_out(dir_data@, r.1 as nat, records(r.0@)),
        forall|i: int| 0 <= i < r.0@.len() ==> !(#[trigger] r.0@[i]).opened,
{
    let ghost data = dir_data@;
    let num_files: u16 = read_u16(dir_data.as_slice(), 4);
    let mut files: Vec<File> = Vec::new();
    let mut dir_data_ptr: usize = DIR_HEADER_SIZE;
    let mut i: u16 = 0;
    proof {
        assert(records(files@) =~= Seq::<FileView>::empty());
        assert(records(files@) + decode_records(data, DIR_HEADER_SIZE as int, num_files as nat)
            =~= decode_records(data, DIR_HEADER_SIZE as int, num_files as nat));
    }
    while i < num_files
        invariant_except_break
            decode_records(data, DIR_HEADER_SIZE as int, num_files as nat) == records(files@)
                + decode_records(data, dir_data_ptr as int, (num_files - i) as nat),
            decode_cursor(data, DIR_HEADER_SIZE as int, num_files as nat) == decode_cursor(
                data,
                dir_data_ptr as int,
                (num_files - i) as nat,
            ),
        invariant
            data == dir_data@,
            data.len() == DIR_DATA_SIZE,
            num_files == declared_count(data),
            i <= num_files,
            laid_out(data, dir_data_ptr as nat, records(files@)),
            forall|k: int| 0 <= k < files@.len() ==> !(#[trigger] files@[k]).opened,
        ensures
            records(files@) == decode_records(data, DIR_HEADER_SIZE as int, num_files as nat),
            dir_data_ptr == decode_cursor(data, DIR_HEADER_SIZE as int, num_files as nat),
        decreases num_files - i,
    {
        let dir_data_off: usize = dir_data_ptr;
        if dir_data_ptr + 2 > DIR_DATA_SIZE {
            proof {
                assert(records(files@) + Seq::<FileView>::empty() =~= records(files@));
            }
            break ;
        }
        let filename_size: usize = read_u16(dir_data.as_slice(), dir_data_ptr) as usize;
        if dir_data_ptr + filename_size + DIR_RECORD_OVERHEAD > DIR_DATA_SIZE {
            proof {
                assert(records(files@) + Seq::<FileView>::empty() =~= records(files@));
            }
            break ;
        }
        if filename_size > MAX_FILENAME_SIZE {
            proof {
                assert(records(files@) + Seq::<FileView>::empty() =~= records(files@));
            }
            dir_data_ptr += 2;
            break ;
        }
        let filename: Vec<u8> = slice_to_vec(
            slice_subrange(
                dir_data.as_slice(),
                dir_data_off + 2,
                dir_data_off + 2 + filename_size,
            ),
        );
        let start_block: u32 = read_u32(dir_data.as_slice(), dir_data_off + filename_size + 3);
        let num_blocks: u32 = read_u32(dir_data.as_slice(), dir_data_off + filename_size + 7);
        let size: u32 = read_u32(dir_data.as_slice(), dir_data_off + filename_size + 11);
        let file = File {
            filename,
            start_block,
            num_blocks,
            size,
            dir_data_off: dir_data_off as u32,
            opened: false,
        };
        let ghost before = records(files@);
        let ghost f = file@;
        assert(f == decode_record(data, dir_data_off as int));
        files.push(file);
        dir_data_ptr += filename_size + DIR_RECORD_OVERHEAD;
        i += 1;
        proof {
            let rest = decode_records(data, dir_data_ptr as int, (num_files - i) as nat);
            assert(records(files@) =~= before + seq![f]);
            assert((before + seq![f]) + rest =~= before + (seq![f] + rest));
            assert forall|a: int| 0 <= a < records(files@).len() implies {
                &&& (#[trigger] records(files@)[a]).wf()
                &&& DIR_HEADER_SIZE <= records(files@)[a].dir_data_off
                &&& records(files@)[a].slot_end() <= dir_data_ptr
                &&& slot_decodes(data, records(files@)[a])
            } by {
                if a < before.len() {
                    assert(records(files@)[a] == before[a]);
                } else {
                    assert(records(files@)[a] == f);
                    lemma_le_bounds(data.subrange(
                        dir_data_off + filename_size + 3,
                        dir_data_off + filename_size + 7,
                    ));
                    lemma_le_bounds(data.subrange(
                        dir_data_off + filename_size + 7,
                        dir_data_off + filename_size + 11,
                    ));
                    lemma_le_bounds(data.subrange(
                        dir_data_off + filename_size + 11,
                        dir_data_off + filename_size + 15,
                    ));
                }
            }
            assert forall|a: int, b: int|
                #![trigger records(files@)[a], records(files@)[b]]
                0 <= a < b < records(files@).len() implies records(files@)[a].slot_end()
                <= records(files@)[b].dir_data_off by {
                if b < before.len() {
                    assert(records(files@)[a] == before[a]);
                    assert(records(files@)[b] == before[b]);
                } else {
                    assert(records(files@)[a] == before[a]);
                    assert(records(files@)[b] == f);
                }
            }
        }
    }
    (files, dir_data_ptr)
}

} // verus!
