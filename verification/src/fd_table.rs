//! The descriptor bitmap: one bit for each slot of the descriptor table.
//!
//! Bit `k` stands for descriptor `k + 1`. A set bit means that the
//! descriptor is taken.

use vstd::prelude::*;
use crate::layout::MAX_NUM_FD;
use crate::error::FsError;

verus! {

/// Whether bit `j` of the byte `b` is set.
pub open spec fn byte_bit(b: u8, j: u8) -> bool {
    b & (1u8 << j) != 0
}

/// Whether bit `k` of the bitmap is set, bits counted from the least
/// significant bit of the first byte on.
pub open spec fn bit_is_set(bitmap: Seq<u8>, k: int) -> bool {
    byte_bit(bitmap[k / 8], (k % 8) as u8)
}

/// The bitmap of a table in which only bit 0 is taken: no descriptor was
/// handed out yet, and descriptor 1 never will be.
pub open spec fn initial_bitmap() -> Seq<u8> {
    seq![1u8, 0u8, 0u8, 0u8, 0u8, 0u8, 0u8, 0u8]
}

proof fn lemma_or_mask(b: u8, j: u8, k: u8)
    by (bit_vector)
    requires
        j < 8,
        k < 8,
    ensures
        ((b | (1u8 << j)) & (1u8 << k) != 0) == ((b & (1u8 << k) != 0) || k == j),
{
}

proof fn lemma_and_not_mask(b: u8, j: u8, k: u8)
    by (bit_vector)
    requires
        j < 8,
        k < 8,
    ensures
        ((b & !(1u8 << j)) & (1u8 << k) != 0) == ((b & (1u8 << k) != 0) && k != j),
{
}

proof fn lemma_free_test(b: u8, j: u8)
    by (bit_vector)
    requires
        j < 8,
    ensures
        ((b | !(1u8 << j)) != 0xFF) == !(b & (1u8 << j) != 0),
{
}

proof fn lemma_full_byte(b: u8, k: u8)
    by (bit_vector)
    requires
        k < 8,
        b == 0xFF,
    ensures
        b & (1u8 << k) != 0,
{
}

proof fn lemma_zero_byte(k: u8)
    by (bit_vector)
    requires
        k < 8,
    ensures
        !(0u8 & (1u8 << k) != 0),
        (1u8 & (1u8 << k) != 0) == (k == 0),
{
}

/// In the initial bitmap bit 0 is set and no other.
pub proof fn lemma_initial_bitmap(k: int)
    requires
        0 <= k < MAX_NUM_FD,
    ensures
        bit_is_set(initial_bitmap(), k) == (k == 0),
{
    lemma_zero_byte((k % 8) as u8);
}

/// A fresh bitmap: bit 0 taken, every other bit free.
pub fn new_fd_bitmap() -> (bitmap: Vec<u8>)
    ensures
        bitmap@ == initial_bitmap(),
{
    let mut bitmap: Vec<u8> = vec![0u8; MAX_NUM_FD / 8];
    bitmap[0] = 1;
    assert(bitmap@ =~= initial_bitmap());
    bitmap
}

/// Takes the lowest free bit of the bitmap and returns its descriptor, the
/// bit's number plus one. Fails with `Exhausted`, changing nothing, when
/// every bit is taken.
pub fn get_unused_fd(fd_bitmap: &mut Vec<u8>) -> (r: Result<u32, FsError>)
    requires
        old(fd_bitmap)@.len() == MAX_NUM_FD / 8,
    ensures
        final(fd_bitmap)@.len() == MAX_NUM_FD / 8,
        match r {
            Ok(fd) => {
                &&& 1 <= fd <= MAX_NUM_FD
                &&& !bit_is_set(old(fd_bitmap)@, fd - 1)
                &&& forall|k: int| 0 <= k < fd - 1 ==> bit_is_set(old(fd_bitmap)@, k)
                &&& forall|k: int|
                    0 <= k < MAX_NUM_FD ==> bit_is_set(final(fd_bitmap)@, k) == (bit_is_set(
                        old(fd_bitmap)@,
                        k,
                    ) || k == fd - 1)
            },
            Err(e) => {
                &&& e == FsError::Exhausted
                &&& final(fd_bitmap)@ == old(fd_bitmap)@
                &&& forall|k: int| 0 <= k < MAX_NUM_FD ==> bit_is_set(old(fd_bitmap)@, k)
            },
        },
{
    let mut i: usize = 0;
    while i < MAX_NUM_FD / 8
        invariant
            i <= MAX_NUM_FD / 8,
            fd_bitmap@ == old(fd_bitmap)@,
            fd_bitmap@.len() == MAX_NUM_FD / 8,
            forall|k: int| 0 <= k < 8 * i ==> bit_is_set(fd_bitmap@, k),
        decreases MAX_NUM_FD / 8 - i,
    {
        let byte: u8 = fd_bitmap[i];
        if byte == 0xFF {
            proof {
                assert forall|k: int| 0 <= k < 8 * (i + 1) implies bit_is_set(fd_bitmap@, k) by {
                    if k >= 8 * i {
                        lemma_full_byte(byte, (k % 8) as u8);
                    }
                }
            }
            i += 1;
            continue ;
        }
        let mut j: u8 = 0;
        while j < 8
            invariant
                j <= 8,
                i < MAX_NUM_FD / 8,
                byte == fd_bitmap@[i as int],
                fd_bitmap@ == old(fd_bitmap)@,
                fd_bitmap@.len() == MAX_NUM_FD / 8,
                forall|k: int| 0 <= k < 8 * i + j ==> bit_is_set(fd_bitmap@, k),
            decreases 8 - j,
        {
            let mask: u8 = 1u8 << j;
            proof {
                lemma_free_test(byte, j);
            }
            if (byte | !mask) != 0xFF {
                fd_bitmap[i] = byte | mask;
                let fd: u32 = (i * 8 + j as usize + 1) as u32;
                proof {
                    assert((fd - 1) / 8 == i && (fd - 1) % 8 == j);
                    assert forall|k: int| 0 <= k < MAX_NUM_FD implies bit_is_set(fd_bitmap@, k)
                        == (bit_is_set(old(fd_bitmap)@, k) || k == fd - 1) by {
                        if k / 8 == i {
                            lemma_or_mask(byte, j, (k % 8) as u8);
                        }
                    }
                }
                return Ok(fd);
            }
            proof {
                assert forall|k: int| 0 <= k < 8 * i + j + 1 implies bit_is_set(fd_bitmap@, k) by {
                    if k == 8 * i + j {
                        assert(k / 8 == i && k % 8 == j);
                    }
                }
            }
            j += 1;
        }
        i += 1;
    }
    Err(FsError::Exhausted)
}

/// Frees the bit of descriptor `fd`. A descriptor outside 1 to `MAX_NUM_FD`
/// has no bit: the bitmap stays as it is and the call fails with
/// `InvalidArgument`.
pub fn mark_fd_unused(fd_bitmap: &mut Vec<u8>, fd: u32) -> (r: Result<(), FsError>)
    requires
        old(fd_bitmap)@.len() == MAX_NUM_FD / 8,
    ensures
        final(fd_bitmap)@.len() == MAX_NUM_FD / 8,
        r is Ok <==> 1 <= fd <= MAX_NUM_FD,
        r is Err ==> r == Err::<(), FsError>(FsError::InvalidArgument) && final(fd_bitmap)@ == old(
            fd_bitmap,
        )@,
        r is Ok ==> forall|k: int|
            0 <= k < MAX_NUM_FD ==> bit_is_set(final(fd_bitmap)@, k) == (bit_is_set(
                old(fd_bitmap)@,
                k,
            ) && k != fd - 1),
{
    if fd == 0 || fd as usize > MAX_NUM_FD {
        return Err(FsError::InvalidArgument);
    }
    let bit: usize = (fd - 1) as usize;
    let byte_off: usize = bit / 8;
    let bit_off: u8 = (bit % 8) as u8;
    let mask: u8 = 1u8 << bit_off;
    let byte: u8 = fd_bitmap[byte_off];
    fd_bitmap[byte_off] = byte & !mask;
    proof {
        assert forall|k: int| 0 <= k < MAX_NUM_FD implies bit_is_set(fd_bitmap@, k) == (bit_is_set(
            old(fd_bitmap)@,
            k,
        ) && k != fd - 1) by {
            if k / 8 == byte_off {
                lemma_and_not_mask(byte, bit_off, (k % 8) as u8);
            }
        }
    }
    Ok(())
}

} // verus!
