//! The block device under the filesystem, held in memory.
//!
//! A device is a fixed number of blocks of `STORAGE_BLOCK_SIZE` bytes. A block
//! that was never written reads as zeros. Transfers are made block by block
//! and stop at the first block that the device does not have, so a caller sees
//! a short count where the device ends.

use vstd::prelude::*;
use vstd::slice::slice_subrange;
use vstd::slice::slice_to_vec;
use crate::layout::STORAGE_BLOCK_SIZE;
use crate::codec::splice;
use crate::codec::copy_into;

verus! {

/// What a device holds: its bytes, block after block, and which blocks were
/// written at least once.
pub struct DiskView {
    pub bytes: Seq<u8>,
    pub written: Seq<bool>,
}

impl DiskView {
    /// Block numbers fit in 32 bits, every block has its bytes, and a block
    /// that was never written holds zeros.
    pub open spec fn wf(self) -> bool {
        &&& self.written.len() <= u32::MAX
        &&& self.bytes.len() == self.written.len() * STORAGE_BLOCK_SIZE
        &&& forall|a: int|
            0 <= a < self.bytes.len() && !self.written[a / (STORAGE_BLOCK_SIZE as int)]
                ==> #[trigger] self.bytes[a] == 0
    }

    /// Number of blocks of the device.
    pub open spec fn num_blocks(self) -> nat {
        self.written.len()
    }

    /// How many of the `count` blocks from `start` on the device has, counted
    /// from `start` without a gap.
    pub open spec fn blocks_within(self, start: nat, count: nat) -> nat {
        if start >= self.num_blocks() {
            0
        } else if start + count <= self.num_blocks() {
            count
        } else {
            (self.num_blocks() - start) as nat
        }
    }

    /// How many of the `want` bytes from address `addr` on lie on the device.
    pub open spec fn bytes_within(self, addr: nat, want: nat) -> nat {
        if addr >= self.bytes.len() {
            0
        } else if addr + want <= self.bytes.len() {
            want
        } else {
            (self.bytes.len() - addr) as nat
        }
    }

    /// The `len` bytes from address `addr` on.
    pub open spec fn load(self, addr: nat, len: nat) -> Seq<u8> {
        Seq::new(len, |i: int| self.bytes[addr + i])
    }

    /// The device after `data` was stored from address `addr` on: those bytes
    /// are replaced, and every block that holds one of them counts as written.
    pub open spec fn store(self, addr: nat, data: Seq<u8>) -> DiskView {
        DiskView {
            bytes: splice(self.bytes, addr as int, data),
            written: Seq::new(
                self.written.len(),
                |b: int|
                    self.written[b] || (data.len() > 0 && addr < (b + 1) * STORAGE_BLOCK_SIZE
                        && b * STORAGE_BLOCK_SIZE < addr + data.len()),
            ),
        }
    }

    /// The device after as much of `data` as it has room for was stored from
    /// address `addr` on.
    pub open spec fn store_clamped(self, addr: nat, data: Seq<u8>) -> DiskView {
        self.store(addr, data.subrange(0, self.bytes_within(addr, data.len()) as int))
    }
}

/// Storing within the device keeps it well formed.
pub proof fn lemma_store_wf(d: DiskView, addr: nat, data: Seq<u8>)
    requires
        d.wf(),
        addr + data.len() <= d.bytes.len(),
    ensures
        d.store(addr, data).wf(),
        d.store(addr, data).num_blocks() == d.num_blocks(),
{
    let e = d.store(addr, data);
    assert forall|a: int|
        0 <= a < e.bytes.len() && !e.written[a / (STORAGE_BLOCK_SIZE as int)]
            implies #[trigger] e.bytes[a] == 0 by {
        let b = a / (STORAGE_BLOCK_SIZE as int);
        assert(!d.written[b]);
        assert(d.bytes[a] == 0);
    }
}

/// Storing nothing changes nothing.
pub proof fn lemma_store_nothing(d: DiskView, addr: nat)
    ensures
        d.store(addr, Seq::<u8>::empty()) == d,
{
    let e = d.store(addr, Seq::<u8>::empty());
    assert(e.bytes =~= d.bytes);
    assert(e.written =~= d.written);
}

/// Storing one piece after the other is storing both at once.
pub proof fn lemma_store_append(d: DiskView, addr: nat, first: Seq<u8>, second: Seq<u8>)
    ensures
        d.store(addr, first).store(addr + first.len(), second) == d.store(addr, first + second),
{
    let e = d.store(addr, first).store(addr + first.len(), second);
    let f = d.store(addr, first + second);
    assert(e.bytes =~= f.bytes);
    assert(e.written =~= f.written);
}

/// A fixed-size block device in memory.
pub struct Disk {
    blocks: Vec<Option<Vec<u8>>>,
}

impl Disk {
    /// The bytes of the device and the blocks that were written.
    pub closed spec fn view(&self) -> DiskView {
        DiskView {
            bytes: Seq::new(
                self.blocks@.len() * STORAGE_BLOCK_SIZE as nat,
                |a: int|
                    match self.blocks@[a / (STORAGE_BLOCK_SIZE as int)] {
                        Some(b) => b@[a % (STORAGE_BLOCK_SIZE as int)],
                        None => 0u8,
                    },
            ),
            written: Seq::new(self.blocks@.len(), |i: int| self.blocks@[i] is Some),
        }
    }

    /// Every block that is held has exactly one block's bytes.
    pub closed spec fn wf(&self) -> bool {
        &&& self.blocks@.len() <= u32::MAX
        &&& forall|i: int|
            0 <= i < self.blocks@.len() ==> (#[trigger] self.blocks@[i] matches Some(b)
                ==> b@.len() == STORAGE_BLOCK_SIZE)
    }

    /// A well-formed device has a well-formed view.
    pub proof fn lemma_view_wf(&self)
        requires
            self.wf(),
        ensures
            self@.wf(),
    {
    }

    /// A device of `num_blocks` blocks, none of them written.
    pub fn new(num_blocks: u32) -> (d: Disk)
        ensures
            d.wf(),
            d@.wf(),
            d@.num_blocks() == num_blocks,
            d@.bytes == crate::codec::zeros((num_blocks * STORAGE_BLOCK_SIZE) as nat),
            forall|b: int| 0 <= b < num_blocks ==> !d@.written[b],
    {
        let mut blocks: Vec<Option<Vec<u8>>> = Vec::new();
        let mut i: u32 = 0;
        while i < num_blocks
            invariant
                i <= num_blocks,
                blocks@.len() == i,
                forall|j: int| 0 <= j < i ==> blocks@[j] is None,
            decreases num_blocks - i,
        {
            blocks.push(None);
            i += 1;
        }
        let d = Disk { blocks };
        assert(d@.bytes =~= crate::codec::zeros((num_blocks * STORAGE_BLOCK_SIZE) as nat));
        d
    }

    /// Number of blocks of the device.
    pub fn num_blocks(&self) -> (n: u32)
        requires
            self.wf(),
        ensures
            n == self@.num_blocks(),
            self@.wf(),
    {
        self.blocks.len() as u32
    }

    /// Whether block `block` was written at least once. A block that the
    /// device does not have was not.
    pub fn is_written(&self, block: u32) -> (r: bool)
        requires
            self.wf(),
        ensures
            r == (block < self@.num_blocks() && self@.written[block as int]),
    {
        if (block as usize) < self.blocks.len() {
            self.blocks[block as usize].is_some()
        } else {
            false
        }
    }

    /// Copies block `block` into `data` from position `at` on.
    fn load_block(&self, block: usize, data: &mut [u8], at: usize)
        requires
            self.wf(),
            block < self@.num_blocks(),
            at + STORAGE_BLOCK_SIZE <= old(data)@.len(),
        ensures
            final(data)@ == splice(
                old(data)@,
                at as int,
                self@.load((block * STORAGE_BLOCK_SIZE) as nat, STORAGE_BLOCK_SIZE as nat),
            ),
    {
        let ghost want = self@.load(
            (block * STORAGE_BLOCK_SIZE) as nat,
            STORAGE_BLOCK_SIZE as nat,
        );
        match &self.blocks[block] {
            Some(b) => {
                assert(b@ =~= want) by {
                    assert forall|k: int| 0 <= k < STORAGE_BLOCK_SIZE implies b@[k] == want[k] by {
                        let a = block * STORAGE_BLOCK_SIZE + k;
                        assert(a / (STORAGE_BLOCK_SIZE as int) == block);
                        assert(a % (STORAGE_BLOCK_SIZE as int) == k);
                    }
                }
                copy_into(data, at, b.as_slice());
            },
            None => {
                let z: Vec<u8> = vec![0u8; STORAGE_BLOCK_SIZE];
                assert(z@ =~= want) by {
                    assert forall|k: int| 0 <= k < STORAGE_BLOCK_SIZE implies z@[k] == want[k] by {
                        let a = block * STORAGE_BLOCK_SIZE + k;
                        assert(a / (STORAGE_BLOCK_SIZE as int) == block);
                    }
                }
                copy_into(data, at, z.as_slice());
            },
        }
    }

    /// Reads `num_blocks` blocks, from block `start_block` on, into the
    /// front of `data`. Returns the number of bytes read: reading stops at the
    /// first block that the device does not have, and the rest of `data`
    /// stays as it was.
    pub fn read_blocks(&self, data: &mut [u8], start_block: u32, num_blocks: u32) -> (r: u32)
        requires
            self.wf(),
            num_blocks * STORAGE_BLOCK_SIZE <= old(data)@.len(),
            num_blocks * STORAGE_BLOCK_SIZE <= u32::MAX,
        ensures
            r == self@.blocks_within(start_block as nat, num_blocks as nat) * STORAGE_BLOCK_SIZE,
            final(data)@ == splice(
                old(data)@,
                0,
                self@.load((start_block * STORAGE_BLOCK_SIZE) as nat, r as nat),
            ),
    {
        let total: usize = self.blocks.len();
        let len: usize = data.len();
        let mut read: u32 = 0;
        let mut i: u32 = 0;
        assert(data@ =~= splice(
            old(data)@,
            0,
            self@.load((start_block * STORAGE_BLOCK_SIZE) as nat, 0),
        ));
        while i < num_blocks
            invariant
                self.wf(),
                total == self@.num_blocks(),
                len == data@.len(),
                len == old(data)@.len(),
                i <= num_blocks,
                num_blocks * STORAGE_BLOCK_SIZE <= len,
                num_blocks * STORAGE_BLOCK_SIZE <= u32::MAX,
                read == i * STORAGE_BLOCK_SIZE,
                i == 0 || start_block + i <= total,
                data@ == splice(
                    old(data)@,
                    0,
                    self@.load((start_block * STORAGE_BLOCK_SIZE) as nat, read as nat),
                ),
            decreases num_blocks - i,
        {
            let block: u64 = start_block as u64 + i as u64;
            if block >= total as u64 {
                return read;
            }
            self.load_block(block as usize, data, read as usize);
            proof {
                let lo = (start_block * STORAGE_BLOCK_SIZE) as nat;
                assert(data@ =~= splice(
                    old(data)@,
                    0,
                    self@.load(lo, (read + STORAGE_BLOCK_SIZE) as nat),
                ));
            }
            read += STORAGE_BLOCK_SIZE as u32;
            i += 1;
        }
        read
    }

    /// Writes `num_blocks` blocks, from block `start_block` on, from the
    /// front of `data`. Returns the number of bytes written: writing stops at
    /// the first block that the device does not have.
    pub fn write_blocks(&mut self, data: &[u8], start_block: u32, num_blocks: u32) -> (r: u32)
        requires
            old(self).wf(),
            num_blocks * STORAGE_BLOCK_SIZE <= data@.len(),
            num_blocks * STORAGE_BLOCK_SIZE <= u32::MAX,
        ensures
            final(self).wf(),
            r == old(self)@.blocks_within(start_block as nat, num_blocks as nat)
                * STORAGE_BLOCK_SIZE,
            final(self)@ == old(self)@.store(
                (start_block * STORAGE_BLOCK_SIZE) as nat,
                data@.subrange(0, r as int),
            ),
    {
        let total: usize = self.blocks.len();
        let mut written: u32 = 0;
        let mut i: u32 = 0;
        proof {
            let e = old(self)@.store(
                (start_block * STORAGE_BLOCK_SIZE) as nat,
                data@.subrange(0, 0),
            );
            assert(self@.bytes =~= e.bytes);
            assert(self@.written =~= e.written);
        }
        while i < num_blocks
            invariant
                self.wf(),
                total == self@.num_blocks(),
                total == old(self)@.num_blocks(),
                i <= num_blocks,
                num_blocks * STORAGE_BLOCK_SIZE <= data@.len(),
                num_blocks * STORAGE_BLOCK_SIZE <= u32::MAX,
                written == i * STORAGE_BLOCK_SIZE,
                i == 0 || start_block + i <= total,
                self@ == old(self)@.store(
                    (start_block * STORAGE_BLOCK_SIZE) as nat,
                    data@.subrange(0, written as int),
                ),
            decreases num_blocks - i,
        {
            let block: u64 = start_block as u64 + i as u64;
            if block >= total as u64 {
                return written;
            }
            let chunk: Vec<u8> = slice_to_vec(
                slice_subrange(data, written as usize, written as usize + STORAGE_BLOCK_SIZE),
            );
            let ghost before = *self;
            self.blocks[block as usize] = Some(chunk);
            proof {
                let lo = (start_block * STORAGE_BLOCK_SIZE) as nat;
                let e = old(self)@.store(
                    lo,
                    data@.subrange(0, written + STORAGE_BLOCK_SIZE),
                );
                assert forall|a: int| 0 <= a < e.bytes.len() implies self@.bytes[a] == e.bytes[a] by {
                    let b = a / (STORAGE_BLOCK_SIZE as int);
                    if b == block {
                        assert(a % (STORAGE_BLOCK_SIZE as int) == a - block * STORAGE_BLOCK_SIZE);
                    } else {
                        assert(before.blocks@[b] == self.blocks@[b]);
                        assert(self@.bytes[a] == before@.bytes[a]);
                    }
                }
                assert(self@.bytes =~= e.bytes);
                assert forall|b: int| 0 <= b < e.written.len() implies self@.written[b]
                    == e.written[b] by {
                    if b != block {
                        assert(before.blocks@[b] == self.blocks@[b]);
                        assert(self@.written[b] == before@.written[b]);
                    }
                }
                assert(self@.written =~= e.written);
            }
            written += STORAGE_BLOCK_SIZE as u32;
            i += 1;
        }
        written
    }
}

} // verus!
