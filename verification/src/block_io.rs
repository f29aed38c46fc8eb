//! Transfers between byte ranges and the blocks of the device.
//!
//! A file's bytes lie in consecutive blocks. A transfer of a byte range
//! touches each block that holds a part of it: the first block possibly from
//! the middle on, the last possibly up to the middle, the blocks between them
//! whole. It stops at the first block that the device does not have, and
//! reports how many bytes it moved.

use vstd::prelude::*;
use crate::layout::STORAGE_BLOCK_SIZE;
use crate::codec::splice;
use crate::codec::copy_into;
use crate::disk::Disk;
use crate::disk::lemma_store_append;
use crate::disk::lemma_store_nothing;

verus! {

/// Address of the byte at `offset` of an extent that starts at block
/// `start_block`.
pub open spec fn byte_address(start_block: nat, offset: nat) -> nat {
    start_block * STORAGE_BLOCK_SIZE as nat + offset
}

/// Fills `data` with the bytes of block `block_num` from `block_offset` on.
/// Returns the number of bytes read: all of `data`, or 0 when the range does
/// not lie within one block or the device does not have the block. The
/// block is read whole before the bytes are picked out.
pub fn read_from_block(disk: &Disk, data: &mut [u8], block_num: u32, block_offset: u32) -> (r: u32)
    requires
        disk.wf(),
    ensures
        r == (if block_offset + old(data)@.len() <= STORAGE_BLOCK_SIZE && block_num
            < disk@.num_blocks() {
            old(data)@.len()
        } else {
            0
        }),
        final(data)@ == (if r == 0 {
            old(data)@
        } else {
            disk@.load(byte_address(block_num as nat, block_offset as nat), r as nat)
        }),
{
    let len: usize = data.len();
    if len > STORAGE_BLOCK_SIZE || block_offset as usize > STORAGE_BLOCK_SIZE - len {
        return 0;
    }
    let mut buf: Vec<u8> = vec![0u8; STORAGE_BLOCK_SIZE];
    let ret: u32 = disk.read_blocks(buf.as_mut_slice(), block_num, 1);
    if ret as usize != STORAGE_BLOCK_SIZE {
        return 0;
    }
    let mut i: usize = 0;
    while i < len
        invariant
            i <= len,
            len == data@.len(),
            len == old(data)@.len(),
            block_offset + len <= STORAGE_BLOCK_SIZE,
            buf@.len() == STORAGE_BLOCK_SIZE,
            forall|k: int| 0 <= k < i ==> data@[k] == buf@[block_offset + k],
            forall|k: int| i <= k < len ==> data@[k] == old(data)@[k],
        decreases len - i,
    {
        data[i] = buf[block_offset as usize + i];
        i += 1;
    }
    proof {
        if len > 0 {
            assert(data@ =~= disk@.load(
                byte_address(block_num as nat, block_offset as nat),
                len as nat,
            ));
        } else {
            assert(data@ =~= old(data)@);
        }
    }
    len as u32
}

/// Stores `data` in block `block_num` from `block_offset` on. Returns the
/// number of bytes written: all of `data`, or 0 when the range does not lie
/// within one block or the device does not have the block. A whole block is
/// written as it comes; for a part of a block the block is read, the bytes
/// are put in their place, and the block is written back.
pub fn write_to_block(disk: &mut Disk, data: &[u8], block_num: u32, block_offset: u32) -> (r: u32)
    requires
        old(disk).wf(),
    ensures
        final(disk).wf(),
        r == (if block_offset + data@.len() <= STORAGE_BLOCK_SIZE && block_num < old(
            disk,
        )@.num_blocks() {
            data@.len()
        } else {
            0
        }),
        final(disk)@ == (if r == 0 {
            old(disk)@
        } else {
            old(disk)@.store(byte_address(block_num as nat, block_offset as nat), data@)
        }),
{
    let len: usize = data.len();
    if len == 0 || len > STORAGE_BLOCK_SIZE || block_offset as usize > STORAGE_BLOCK_SIZE - len {
        return 0;
    }
    proof {
        disk.lemma_view_wf();
    }
    let mut buf: Vec<u8> = vec![0u8; STORAGE_BLOCK_SIZE];
    if !(block_offset == 0 && len == STORAGE_BLOCK_SIZE) {
        let read_ret: u32 = disk.read_blocks(buf.as_mut_slice(), block_num, 1);
        if read_ret != STORAGE_BLOCK_SIZE as u32 {
            return 0;
        }
    }
    copy_into(buf.as_mut_slice(), block_offset as usize, data);
    let ret: u32 = disk.write_blocks(buf.as_slice(), block_num, 1);
    if ret as usize >= len {
        proof {
            let e = old(disk)@.store(byte_address(block_num as nat, block_offset as nat), data@);
            assert(buf@.subrange(0, ret as int) =~= buf@);
            assert(disk@.bytes =~= e.bytes);
            assert(disk@.written =~= e.written);
        }
        len as u32
    } else {
        proof {
            lemma_store_nothing(old(disk)@, (block_num * STORAGE_BLOCK_SIZE) as nat);
            assert(buf@.subrange(0, 0) =~= Seq::<u8>::empty());
        }
        ret
    }
}

/// Reads `size` bytes of an extent that starts at block `start_block`, from
/// byte `offset` of the extent on, into the front of `data`. Returns the
/// number of bytes read, which is short of `size` exactly where the device
/// ends before the range does.
pub fn read_file_bytes(disk: &Disk, data: &mut [u8], start_block: u32, offset: u32, size: u32) -> (r: u32)
    requires
        disk.wf(),
        size <= old(data)@.len(),
    ensures
        r == disk@.bytes_within(byte_address(start_block as nat, offset as nat), size as nat),
        final(data)@ == splice(
            old(data)@,
            0,
            disk@.load(byte_address(start_block as nat, offset as nat), r as nat),
        ),
{
    let ghost addr = byte_address(start_block as nat, offset as nat);
    let total: u32 = disk.num_blocks();
    let mut block_num: u32 = offset / (STORAGE_BLOCK_SIZE as u32);
    let mut block_offset: u32 = offset % (STORAGE_BLOCK_SIZE as u32);
    let mut read_size: u32 = 0;
    let mut next_read_size: u32 = STORAGE_BLOCK_SIZE as u32 - block_offset;
    if next_read_size > size {
        next_read_size = size;
    }
    assert(data@ =~= splice(old(data)@, 0, disk@.load(addr, 0)));
    while read_size < size
        invariant
            disk.wf(),
            disk@.wf(),
            total == disk@.num_blocks(),
            addr == byte_address(start_block as nat, offset as nat),
            size <= data@.len(),
            data@.len() == old(data)@.len(),
            read_size <= size,
            block_offset < STORAGE_BLOCK_SIZE,
            read_size < size ==> block_num * STORAGE_BLOCK_SIZE + block_offset == offset + read_size,
            next_read_size + block_offset <= STORAGE_BLOCK_SIZE,
            next_read_size <= size - read_size,
            read_size < size ==> (next_read_size == size - read_size || next_read_size
                + block_offset == STORAGE_BLOCK_SIZE),
            read_size < size ==> next_read_size > 0,
            addr + read_size <= disk@.bytes.len() || read_size == 0,
            data@ == splice(old(data)@, 0, disk@.load(addr, read_size as nat)),
        ensures
            read_size == disk@.bytes_within(addr, size as nat),
            data@ == splice(old(data)@, 0, disk@.load(addr, read_size as nat)),
        decreases size - read_size,
    {
        let block: u64 = start_block as u64 + block_num as u64;
        if block >= total as u64 {
            break ;
        }
        let (_, tail) = data.split_at_mut(read_size as usize);
        let (chunk, _) = tail.split_at_mut(next_read_size as usize);
        let ret: u32 = read_from_block(disk, chunk, block as u32, block_offset);
        proof {
            assert(ret == next_read_size);
            assert(byte_address(block as nat, block_offset as nat) == addr + read_size);
            assert(data@ =~= splice(
                old(data)@,
                0,
                disk@.load(addr, (read_size + next_read_size) as nat),
            ));
        }
        read_size += next_read_size;
        block_num += 1;
        block_offset = 0;
        if size - read_size >= STORAGE_BLOCK_SIZE as u32 {
            next_read_size = STORAGE_BLOCK_SIZE as u32;
        } else {
            next_read_size = size - read_size;
        }
    }
    read_size
}

/// Stores the first `size` bytes of `data` in an extent that starts at block
/// `start_block`, from byte `offset` of the extent on. Returns the number of
/// bytes written, which is short of `size` exactly where the device ends
/// before the range does.
pub fn write_file_bytes(disk: &mut Disk, data: &[u8], start_block: u32, offset: u32, size: u32) -> (r: u32)
    requires
        old(disk).wf(),
        size <= data@.len(),
    ensures
        final(disk).wf(),
        r == old(disk)@.bytes_within(byte_address(start_block as nat, offset as nat), size as nat),
        final(disk)@ == old(disk)@.store(
            byte_address(start_block as nat, offset as nat),
            data@.subrange(0, r as int),
        ),
{
    let ghost addr = byte_address(start_block as nat, offset as nat);
    let total: u32 = disk.num_blocks();
    let mut block_num: u32 = offset / (STORAGE_BLOCK_SIZE as u32);
    let mut block_offset: u32 = offset % (STORAGE_BLOCK_SIZE as u32);
    let mut written_size: u32 = 0;
    let mut next_write_size: u32 = STORAGE_BLOCK_SIZE as u32 - block_offset;
    if next_write_size > size {
        next_write_size = size;
    }
    proof {
        lemma_store_nothing(old(disk)@, addr);
        assert(data@.subrange(0, 0) =~= Seq::<u8>::empty());
    }
    while written_size < size
        invariant
            disk.wf(),
            disk@.wf(),
            total == disk@.num_blocks(),
            disk@.bytes.len() == old(disk)@.bytes.len(),
            addr == byte_address(start_block as nat, offset as nat),
            size <= data@.len(),
            written_size <= size,
            block_offset < STORAGE_BLOCK_SIZE,
            written_size < size ==> block_num * STORAGE_BLOCK_SIZE + block_offset == offset
                + written_size,
            next_write_size + block_offset <= STORAGE_BLOCK_SIZE,
            next_write_size <= size - written_size,
            written_size < size ==> (next_write_size == size - written_size || next_write_size
                + block_offset == STORAGE_BLOCK_SIZE),
            written_size < size ==> next_write_size > 0,
            addr + written_size <= disk@.bytes.len() || written_size == 0,
            disk@ == old(disk)@.store(addr, data@.subrange(0, written_size as int)),
        ensures
            disk.wf(),
            written_size == old(disk)@.bytes_within(addr, size as nat),
            disk@ == old(disk)@.store(addr, data@.subrange(0, written_size as int)),
        decreases size - written_size,
    {
        let block: u64 = start_block as u64 + block_num as u64;
        if block >= total as u64 {
            break ;
        }
        let chunk: &[u8] = vstd::slice::slice_subrange(
            data,
            written_size as usize,
            (written_size + next_write_size) as usize,
        );
        let ret: u32 = write_to_block(disk, chunk, block as u32, block_offset);
        proof {
            assert(ret == next_write_size);
            assert(byte_address(block as nat, block_offset as nat) == addr + written_size);
            lemma_store_append(
                old(disk)@,
                addr,
                data@.subrange(0, written_size as int),
                chunk@,
            );
            assert(data@.subrange(0, written_size as int) + chunk@ =~= data@.subrange(
                0,
                written_size + next_write_size,
            ));
        }
        written_size += next_write_size;
        block_num += 1;
        block_offset = 0;
        if size - written_size >= STORAGE_BLOCK_SIZE as u32 {
            next_write_size = STORAGE_BLOCK_SIZE as u32;
        } else {
            next_write_size = size - written_size;
        }
    }
    written_size
}

} // verus!
