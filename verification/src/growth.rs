//! Where a file's blocks are placed when a write needs more room than the
//! file has.
//!
//! A file that is empty gets a new extent behind every other file's extent.
//! A file that holds bytes grows in place: the blocks behind its extent are
//! claimed when no other file owns one of them. Nothing is ever moved.

use vstd::prelude::*;
use crate::layout::STORAGE_BLOCK_SIZE;
use crate::layout::DIR_DATA_NUM_BLOCKS;
use crate::layout::DIR_DATA_SIZE;
use crate::layout::MAX_FILENAME_SIZE;
use crate::error::FsError;
use crate::codec::splice;
use crate::codec::zeros;
use crate::disk::Disk;
use crate::disk::DiskView;
use crate::disk::lemma_store_append;
use crate::disk::lemma_store_nothing;
use crate::file::File;
use crate::file::FileView;
use crate::file::records;
use crate::directory::record_bytes;
use crate::directory::update_file_in_directory;
use crate::directory::flush_dir_data_to_storage;

verus! {

/// Number of blocks that hold `bytes` bytes.
pub open spec fn blocks_for(bytes: nat) -> nat {
    (bytes + STORAGE_BLOCK_SIZE - 1) as nat / STORAGE_BLOCK_SIZE as nat
}

/// Whether two extents have a block in common.
pub open spec fn extents_overlap(a: FileView, b: FileView) -> bool {
    &&& a.num_blocks > 0
    &&& b.num_blocks > 0
    &&& a.start_block < b.end_block()
    &&& b.start_block < a.end_block()
}

/// Two extents overlap exactly when some block lies in both.
pub proof fn lemma_overlap_is_a_common_block(a: FileView, b: FileView)
    ensures
        extents_overlap(a, b) <==> exists|k: nat| #[trigger] a.claims(k) && b.claims(k),
{
    if extents_overlap(a, b) {
        let k = if a.start_block >= b.start_block {
            a.start_block
        } else {
            b.start_block
        };
        assert(a.claims(k) && b.claims(k));
    }
}

/// No two files own the same block.
pub open spec fn extents_disjoint(files: Seq<FileView>) -> bool {
    forall|i: int, j: int|
        #![trigger files[i], files[j]]
        0 <= i < files.len() && 0 <= j < files.len() && i != j ==> !extents_overlap(
            files[i],
            files[j],
        )
}

/// The first block after the directory region and after the extents of the
/// first `k` files, the file at `except` left out.
pub open spec fn packed_start_upto(files: Seq<FileView>, except: int, k: nat) -> nat
    decreases k,
{
    if k == 0 {
        DIR_DATA_NUM_BLOCKS as nat
    } else {
        let before = packed_start_upto(files, except, (k - 1) as nat);
        if k - 1 != except && files[k - 1].end_block() > before {
            files[k - 1].end_block()
        } else {
            before
        }
    }
}

/// Where an empty file's extent starts: the first block after the directory
/// region and after every other file's extent.
pub open spec fn packed_start(files: Seq<FileView>, except: int) -> nat {
    packed_start_upto(files, except, files.len())
}

/// The start that packing picks lies behind the directory region and behind
/// every other file's extent, and is the lowest such block.
pub proof fn lemma_packed_start(files: Seq<FileView>, except: int, k: nat)
    requires
        k <= files.len(),
    ensures
        packed_start_upto(files, except, k) >= DIR_DATA_NUM_BLOCKS,
        forall|j: int|
            0 <= j < k && j != except ==> (#[trigger] files[j]).end_block() <= packed_start_upto(
                files,
                except,
                k,
            ),
        packed_start_upto(files, except, k) == DIR_DATA_NUM_BLOCKS || exists|j: int|
            0 <= j < k && j != except && (#[trigger] files[j]).end_block() == packed_start_upto(
                files,
                except,
                k,
            ),
    decreases k,
{
    if k > 0 {
        lemma_packed_start(files, except, (k - 1) as nat);
        let before = packed_start_upto(files, except, (k - 1) as nat);
        let now = packed_start_upto(files, except, k);
        if now != DIR_DATA_NUM_BLOCKS {
            if k - 1 != except && files[k - 1].end_block() > before {
                assert(files[k - 1].end_block() == now);
            } else {
                let j = choose|j: int|
                    0 <= j < k - 1 && j != except && (#[trigger] files[j]).end_block() == before;
                assert(files[j].end_block() == now);
            }
        }
    }
}

/// Whether the `needed` blocks behind the extent of the file at `idx` are
/// owned by no other file.
pub open spec fn window_free(files: Seq<FileView>, idx: int, needed: nat) -> bool {
    forall|j: int|
        0 <= j < files.len() && j != idx ==> !{
            &&& needed > 0
            &&& (#[trigger] files[j]).num_blocks > 0
            &&& files[j].start_block < files[idx].end_block() + needed
            &&& files[idx].end_block() < files[j].end_block()
        }
}

/// An extent stands in the way of a window of blocks exactly when it owns
/// one of the window's blocks.
pub proof fn lemma_window_is_claimed(g: FileView, first: nat, needed: nat)
    ensures
        (g.num_blocks > 0 && needed > 0 && g.start_block < first + needed && first
            < g.end_block()) <==> exists|b: nat| first <= b < first + needed && #[trigger] g.claims(b),
{
    if g.num_blocks > 0 && needed > 0 && g.start_block < first + needed && first < g.end_block() {
        let b = if g.start_block >= first {
            g.start_block
        } else {
            first
        };
        assert(first <= b < first + needed && g.claims(b));
    }
}

/// Whether the growth asked of `f` fits into the unused rest of its last
/// block.
pub open spec fn fits_last_block(f: FileView, size: nat) -> bool {
    let block = STORAGE_BLOCK_SIZE as nat;
    let leftover = (block - f.size % block) as nat;
    leftover != block && leftover >= extra_bytes(f, size)
}

/// Number of bytes by which `f` has to grow to reach `size`.
pub open spec fn extra_bytes(f: FileView, size: nat) -> nat {
    if f.size == 0 {
        size
    } else {
        (size - f.size) as nat
    }
}

/// What growing a file changes: the extent that the file has afterwards, and
/// the run of new blocks that is filled with zeros.
pub struct GrowthPlan {
    pub start_block: nat,
    pub num_blocks: nat,
    pub fill_start: nat,
    pub fill_count: nat,
}

/// How the file at `idx` grows to `size` bytes, or `None` when the partition
/// has no room for it. The file is smaller than `size`.
pub open spec fn growth_plan(files: Seq<FileView>, idx: int, size: nat, partition: nat) -> Option<
    GrowthPlan,
> {
    let f = files[idx];
    let needed = blocks_for(extra_bytes(f, size));
    if fits_last_block(f, size) {
        Some(
            GrowthPlan {
                start_block: f.start_block,
                num_blocks: f.num_blocks,
                fill_start: f.end_block(),
                fill_count: 0,
            },
        )
    } else if f.size == 0 {
        let start = packed_start(files, idx);
        if start + needed >= partition {
            None
        } else {
            Some(
                GrowthPlan {
                    start_block: start,
                    num_blocks: needed,
                    fill_start: start,
                    fill_count: needed,
                },
            )
        }
    } else {
        if !window_free(files, idx, needed) || f.end_block() + needed >= partition {
            None
        } else {
            Some(
                GrowthPlan {
                    start_block: f.start_block,
                    num_blocks: f.num_blocks + needed,
                    fill_start: f.end_block(),
                    fill_count: needed,
                },
            )
        }
    }
}

/// The device after the `count` blocks from block `start` on were filled
/// with zeros, as far as the device has them.
pub open spec fn zero_filled(disk: DiskView, start: nat, count: nat) -> DiskView {
    disk.store_clamped(
        start * STORAGE_BLOCK_SIZE as nat,
        zeros(count * STORAGE_BLOCK_SIZE as nat),
    )
}

/// The region after the record of `f` was written at its place, or the
/// region as it is where the record has no place in it.
pub open spec fn with_record_rewritten(data: Seq<u8>, f: FileView) -> Seq<u8> {
    if f.name.len() <= MAX_FILENAME_SIZE && f.slot_end() <= DIR_DATA_SIZE {
        splice(data, f.dir_data_off as int, record_bytes(f))
    } else {
        data
    }
}

/// Fills the `count` blocks from block `start` on with zeros. Blocks that the
/// device does not have are passed over.
pub fn zero_fill_blocks(disk: &mut Disk, start: u32, count: u32)
    requires
        old(disk).wf(),
        start + count <= u32::MAX,
    ensures
        final(disk).wf(),
        final(disk)@ == zero_filled(old(disk)@, start as nat, count as nat),
{
    let zero_buf: Vec<u8> = vec![0u8; STORAGE_BLOCK_SIZE];
    let ghost base = (start * STORAGE_BLOCK_SIZE) as nat;
    let ghost total = old(disk)@.num_blocks();
    proof {
        old(disk).lemma_view_wf();
        lemma_store_nothing(old(disk)@, base);
        assert(zero_buf@ =~= zeros(STORAGE_BLOCK_SIZE as nat));
        assert(zeros(0 * STORAGE_BLOCK_SIZE as nat) =~= Seq::<u8>::empty());
    }
    let mut i: u32 = 0;
    while i < count
        invariant
            disk.wf(),
            disk@.wf(),
            i <= count,
            start + count <= u32::MAX,
            zero_buf@ == zeros(STORAGE_BLOCK_SIZE as nat),
            base == start * STORAGE_BLOCK_SIZE,
            total == disk@.num_blocks(),
            total == old(disk)@.num_blocks(),
            disk@.bytes.len() == old(disk)@.bytes.len(),
            disk@ == old(disk)@.store(
                base,
                zeros(old(disk)@.blocks_within(start as nat, i as nat) * STORAGE_BLOCK_SIZE as nat),
            ),
        decreases count - i,
    {
        let ghost done = old(disk)@.blocks_within(start as nat, i as nat);
        let ghost mid = disk@;
        let ret: u32 = disk.write_blocks(zero_buf.as_slice(), start + i, 1);
        proof {
            disk.lemma_view_wf();
            if start + i < total {
                assert(done == i);
                assert(zero_buf@.subrange(0, ret as int) =~= zero_buf@);
                lemma_store_append(
                    old(disk)@,
                    base,
                    zeros(done * STORAGE_BLOCK_SIZE as nat),
                    zero_buf@,
                );
                assert(zeros(done * STORAGE_BLOCK_SIZE as nat) + zero_buf@ =~= zeros(
                    ((done + 1) * STORAGE_BLOCK_SIZE) as nat,
                ));
            } else {
                assert(ret == 0);
                assert(zero_buf@.subrange(0, 0) =~= Seq::<u8>::empty());
                lemma_store_nothing(mid, ((start + i) * STORAGE_BLOCK_SIZE) as nat);
            }
        }
        i += 1;
    }
    proof {
        let within = old(disk)@.blocks_within(start as nat, count as nat);
        let all = zeros((count * STORAGE_BLOCK_SIZE) as nat);
        assert(old(disk)@.bytes_within(base, all.len()) == within * STORAGE_BLOCK_SIZE);
        assert(all.subrange(0, (within * STORAGE_BLOCK_SIZE) as int) =~= zeros(
            within * STORAGE_BLOCK_SIZE as nat,
        ));
    }
}

/// Gives the empty file at `idx` an extent of `needed_blocks` blocks behind
/// every other file's extent, and fills it with zeros. Fails with
/// `Exhausted`, changing nothing, when the extent would reach the end of the
/// partition.
pub fn expand_empty_file(
    files: &mut Vec<File>,
    idx: usize,
    needed_blocks: u32,
    partition_num_blocks: u32,
    disk: &mut Disk,
) -> (r: Result<(), FsError>)
    requires
        old(disk).wf(),
        idx < old(files)@.len(),
    ensures
        final(disk).wf(),
        final(files)@.len() == old(files)@.len(),
        r is Ok <==> packed_start(records(old(files)@), idx as int) + needed_blocks
            < partition_num_blocks,
        r is Ok ==> {
            &&& records(final(files)@) == records(old(files)@).update(
                idx as int,
                old(files)@[idx as int]@.resized(
                    packed_start(records(old(files)@), idx as int),
                    needed_blocks as nat,
                    old(files)@[idx as int]@.size,
                ),
            )
            &&& final(disk)@ == zero_filled(
                old(disk)@,
                packed_start(records(old(files)@), idx as int),
                needed_blocks as nat,
            )
        },
        r is Err ==> {
            &&& r == Err::<(), FsError>(FsError::Exhausted)
            &&& records(final(files)@) == records(old(files)@)
            &&& final(disk)@ == old(disk)@
        },
{
    let mut start_block: u64 = DIR_DATA_NUM_BLOCKS as u64;
    let mut j: usize = 0;
    while j < files.len()
        invariant
            j <= files@.len(),
            files@ == old(files)@,
            start_block == packed_start_upto(records(files@), idx as int, j as nat),
            start_block <= 2 * u32::MAX,
        decreases files@.len() - j,
    {
        if j != idx {
            let end: u64 = files[j].start_block as u64 + files[j].num_blocks as u64;
            if end > start_block {
                start_block = end;
            }
        }
        j += 1;
    }
    if start_block + needed_blocks as u64 >= partition_num_blocks as u64 {
        return Err(FsError::Exhausted);
    }
    zero_fill_blocks(disk, start_block as u32, needed_blocks);
    files[idx].start_block = start_block as u32;
    files[idx].num_blocks = needed_blocks;
    proof {
        assert(records(files@) =~= records(old(files)@).update(
            idx as int,
            old(files)@[idx as int]@.resized(
                start_block as nat,
                needed_blocks as nat,
                old(files)@[idx as int]@.size,
            ),
        ));
    }
    Ok(())
}

/// Lets the file at `idx` grow in place by `needed_blocks` blocks, and fills
/// them with zeros. Fails with `Exhausted`, changing nothing, when another
/// file owns one of the blocks behind the file's extent or the extent would
/// reach the end of the partition.
pub fn expand_existing_file(
    files: &mut Vec<File>,
    idx: usize,
    needed_blocks: u32,
    partition_num_blocks: u32,
    disk: &mut Disk,
) -> (r: Result<(), FsError>)
    requires
        old(disk).wf(),
        idx < old(files)@.len(),
    ensures
        final(disk).wf(),
        final(files)@.len() == old(files)@.len(),
        r is Ok <==> window_free(records(old(files)@), idx as int, needed_blocks as nat) && old(
            files,
        )@[idx as int]@.end_block() + needed_blocks < partition_num_blocks,
        r is Ok ==> {
            &&& records(final(files)@) == records(old(files)@).update(
                idx as int,
                old(files)@[idx as int]@.resized(
                    old(files)@[idx as int]@.start_block,
                    old(files)@[idx as int]@.num_blocks + needed_blocks as nat,
                    old(files)@[idx as int]@.size,
                ),
            )
            &&& final(disk)@ == zero_filled(
                old(disk)@,
                old(files)@[idx as int]@.end_block(),
                needed_blocks as nat,
            )
        },
        r is Err ==> {
            &&& r == Err::<(), FsError>(FsError::Exhausted)
            &&& records(final(files)@) == records(old(files)@)
            &&& final(disk)@ == old(disk)@
        },
{
    let end: u64 = files[idx].start_block as u64 + files[idx].num_blocks as u64;
    let window_end: u64 = end + needed_blocks as u64;
    let ghost recs = records(files@);
    let mut found: bool = true;
    let mut j: usize = 0;
    while j < files.len()
        invariant
            j <= files@.len(),
            files@ == old(files)@,
            recs == records(files@),
            idx < files@.len(),
            end == recs[idx as int].end_block(),
            window_end == end + needed_blocks,
            found <==> forall|k: int|
                0 <= k < j && k != idx ==> !{
                    &&& needed_blocks > 0
                    &&& (#[trigger] recs[k]).num_blocks > 0
                    &&& recs[k].start_block < recs[idx as int].end_block() + needed_blocks
                    &&& recs[idx as int].end_block() < recs[k].end_block()
                },
        decreases files@.len() - j,
    {
        if j != idx {
            let other_start: u64 = files[j].start_block as u64;
            let other_end: u64 = other_start + files[j].num_blocks as u64;
            if needed_blocks > 0 && files[j].num_blocks > 0 && other_start < window_end && end
                < other_end {
                assert(recs[j as int] == files@[j as int]@);
                found = false;
            }
        }
        assert(recs[j as int] == files@[j as int]@);
        j += 1;
    }
    if !found || window_end >= partition_num_blocks as u64 {
        return Err(FsError::Exhausted);
    }
    zero_fill_blocks(disk, end as u32, needed_blocks);
    let num_blocks: u32 = files[idx].num_blocks;
    files[idx].num_blocks = num_blocks + needed_blocks;
    proof {
        assert(records(files@) =~= recs.update(
            idx as int,
            old(files)@[idx as int]@.resized(
                old(files)@[idx as int]@.start_block,
                old(files)@[idx as int]@.num_blocks + needed_blocks as nat,
                old(files)@[idx as int]@.size,
            ),
        ));
    }
    Ok(())
}

/// Lets the file at `idx` grow to `size` bytes. A file that is that large
/// already stays as it is. Otherwise the growth is planned: within the rest
/// of the last block where that is enough, in a new extent for an empty
/// file, in place for one that holds bytes. New blocks are filled with
/// zeros, then the record gets the new extent and size, is written at its
/// place in the directory region, and the region is written to the device.
/// Fails with `Exhausted`, changing nothing, when the partition has no room.
pub fn expand_file_size(
    files: &mut Vec<File>,
    idx: usize,
    size: u32,
    partition_num_blocks: u32,
    dir_data: &mut Vec<u8>,
    disk: &mut Disk,
) -> (r: Result<(), FsError>)
    requires
        old(disk).wf(),
        idx < old(files)@.len(),
        old(dir_data)@.len() == DIR_DATA_SIZE,
    ensures
        final(disk).wf(),
        final(dir_data)@.len() == DIR_DATA_SIZE,
        final(files)@.len() == old(files)@.len(),
        old(files)@[idx as int]@.size >= size ==> {
            &&& r is Ok
            &&& records(final(files)@) == records(old(files)@)
            &&& final(dir_data)@ == old(dir_data)@
            &&& final(disk)@ == old(disk)@
        },
        old(files)@[idx as int]@.size < size ==> match growth_plan(
            records(old(files)@),
            idx as int,
            size as nat,
            partition_num_blocks as nat,
        ) {
            Some(plan) => {
                &&& r is Ok
                &&& records(final(files)@) == records(old(files)@).update(
                    idx as int,
                    old(files)@[idx as int]@.resized(
                        plan.start_block,
                        plan.num_blocks,
                        size as nat,
                    ),
                )
                &&& final(dir_data)@ == with_record_rewritten(
                    old(dir_data)@,
                    old(files)@[idx as int]@.resized(
                        plan.start_block,
                        plan.num_blocks,
                        size as nat,
                    ),
                )
                &&& final(disk)@ == zero_filled(
                    old(disk)@,
                    plan.fill_start,
                    plan.fill_count,
                ).store_clamped(0, final(dir_data)@)
            },
            None => {
                &&& r == Err::<(), FsError>(FsError::Exhausted)
                &&& records(final(files)@) == records(old(files)@)
                &&& final(dir_data)@ == old(dir_data)@
                &&& final(disk)@ == old(disk)@
            },
        },
{
    let file_size: u32 = files[idx].size;
    if file_size >= size {
        return Ok(());
    }
    let empty_file: bool = file_size == 0;
    let needed_size: u32 = if empty_file {
        size
    } else {
        size - file_size
    };
    let leftover: u32 = STORAGE_BLOCK_SIZE as u32 - file_size % (STORAGE_BLOCK_SIZE as u32);
    let ghost recs = records(files@);
    let ghost f = recs[idx as int];
    assert(f == files@[idx as int]@);
    if !(leftover != STORAGE_BLOCK_SIZE as u32 && leftover >= needed_size) {
        let mut needed_blocks: u32 = needed_size / (STORAGE_BLOCK_SIZE as u32);
        if needed_size % (STORAGE_BLOCK_SIZE as u32) != 0 {
            needed_blocks += 1;
        }
        assert(needed_blocks == blocks_for(extra_bytes(f, size as nat)));
        if empty_file {
            expand_empty_file(files, idx, needed_blocks, partition_num_blocks, disk)?;
        } else {
            expand_existing_file(files, idx, needed_blocks, partition_num_blocks, disk)?;
        }
    } else {
        proof {
            lemma_store_nothing(disk@, (f.end_block() * STORAGE_BLOCK_SIZE) as nat);
            disk.lemma_view_wf();
            assert(zeros(0).subrange(0, 0) =~= Seq::<u8>::empty());
            assert(zeros(0 * STORAGE_BLOCK_SIZE as nat) =~= zeros(0));
            assert(records(files@) =~= recs.update(
                idx as int,
                f.resized(f.start_block, f.num_blocks, f.size),
            ));
        }
    }
    let ghost plan = growth_plan(
        recs,
        idx as int,
        size as nat,
        partition_num_blocks as nat,
    ).unwrap();
    let ghost mid = files@;
    assert(records(mid)[idx as int] == f.resized(plan.start_block, plan.num_blocks, f.size));
    assert(mid[idx as int]@ == records(mid)[idx as int]);
    files[idx].size = size;
    let ghost grown = files@[idx as int]@;
    let _ = update_file_in_directory(dir_data, &files[idx]);
    flush_dir_data_to_storage(dir_data, disk);
    proof {
        assert(grown == f.resized(plan.start_block, plan.num_blocks, size as nat));
        assert forall|j: int| 0 <= j < files@.len() implies records(files@)[j] == recs.update(
            idx as int,
            grown,
        )[j] by {
            if j != idx {
                assert(files@[j] == mid[j]);
                assert(records(mid)[j] == mid[j]@);
            }
        }
        assert(records(files@) =~= recs.update(idx as int, grown));
    }
    Ok(())
}

} // verus!
