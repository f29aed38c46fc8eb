//! What holds of descriptors: which are handed out, how many can be open
//! at once, and what closing does.

use vstd::prelude::*;
use crate::layout::MAX_NUM_FD;
use crate::layout::FILE_OPEN_MODE;
use crate::layout::FILE_OPEN_CREATE_MODE;
use crate::error::FsError;
use crate::model::FsView;
use crate::invariants::lemma_open_descriptor;
use crate::model::lemma_lookup;
use crate::model::lemma_lowest_free;
use vstd::set_lib::set_int_range;
use vstd::set_lib::lemma_int_range;
use vstd::set_lib::lemma_len_subset;
use vstd::set_lib::lemma_subset_equality;

verus! {

/// Closing a descriptor a second time fails with `InvalidArgument` and
/// leaves the state as the first closing left it.
pub proof fn lemma_close_twice(v: FsView, fd: u32)
    requires
        v.wf(),
        v.close_file(fd).1 is Ok,
    ensures
        v.close_file(fd).0.close_file(fd) == (
            v.close_file(fd).0,
            Err::<(), FsError>(FsError::InvalidArgument),
        ),
{
}

/// Closing a descriptor that does not stand for an open file fails with
/// `InvalidArgument` and changes nothing.
pub proof fn lemma_close_of_closed(v: FsView, fd: u32)
    requires
        v.wf(),
        !v.is_open(fd),
    ensures
        v.close_file(fd) == (v, Err::<(), FsError>(FsError::InvalidArgument)),
{
}

/// Every open descriptor lies between 2 and `MAX_NUM_FD - 1`, so no more
/// than `MAX_NUM_FD - 2` files are open at once.
pub proof fn lemma_descriptors_bounded(v: FsView)
    requires
        v.wf(),
    ensures
        v.open_descriptors().finite(),
        v.open_descriptors().len() <= MAX_NUM_FD - 2,
        v.open_descriptors().subset_of(set_int_range(2, MAX_NUM_FD as int)),
{
    lemma_int_range(2, MAX_NUM_FD as int);
    assert(v.open_descriptors().subset_of(set_int_range(2, MAX_NUM_FD as int)));
    lemma_len_subset(v.open_descriptors(), set_int_range(2, MAX_NUM_FD as int));
}

/// Where as many files are open as the table has descriptors to hand out,
/// opening one more fails. So does, all the more, the opening that would be
/// the `MAX_NUM_FD`-th at once.
pub proof fn lemma_open_fails_when_exhausted(v: FsView, name: Seq<u8>, mode: u32)
    requires
        v.wf(),
        v.open_descriptors().len() >= MAX_NUM_FD - 2,
    ensures
        v.open_file(name, mode).1 is Err,
        v.open_file(name, mode).0.file_array == v.file_array,
{
    lemma_descriptors_bounded(v);
    lemma_int_range(2, MAX_NUM_FD as int);
    lemma_subset_equality(v.open_descriptors(), set_int_range(2, MAX_NUM_FD as int));
    assert forall|k: int| 2 <= k < MAX_NUM_FD implies #[trigger] v.file_array[k] != 0 by {
        assert(set_int_range(2, MAX_NUM_FD as int).contains(k));
        assert(v.open_descriptors().contains(k));
    }
    lemma_lowest_free(v.file_array, MAX_NUM_FD as nat);
    assert(v.lowest_free_fd() is None);
    let n = v.with_new_file(name);
    assert(n.lowest_free_fd() is None);
}

/// A descriptor that opening hands out was free before, is open afterwards,
/// and is the only descriptor whose state changed.
pub proof fn lemma_open_takes_one_descriptor(v: FsView, name: Seq<u8>, mode: u32)
    requires
        v.wf(),
        v.open_file(name, mode).1 is Ok,
    ensures
        ({
            let fd = v.open_file(name, mode).1->Ok_0;
            let w = v.open_file(name, mode).0;
            &&& 2 <= fd < MAX_NUM_FD
            &&& !v.is_open(fd)
            &&& w.is_open(fd)
            &&& w.file_of(fd).name == name
            &&& w.open_descriptors() == v.open_descriptors().insert(fd as int)
            &&& w.open_descriptors().len() == v.open_descriptors().len() + 1
        }),
{
    let fd = v.open_file(name, mode).1->Ok_0;
    let w = v.open_file(name, mode).0;
    lemma_lookup(v.files, name, v.files.len());
    lemma_lowest_free(v.file_array, MAX_NUM_FD as nat);
    let n = v.with_new_file(name);
    lemma_lowest_free(n.file_array, MAX_NUM_FD as nat);
    lemma_descriptors_bounded(v);
    assert(w.open_descriptors() =~= v.open_descriptors().insert(fd as int));
}

/// After a descriptor was closed, a file that exists and is closed can be
/// opened: closing freed a descriptor for it.
pub proof fn lemma_close_frees_descriptor(v: FsView, fd: u32, name: Seq<u8>, mode: u32)
    requires
        v.wf(),
        v.is_open(fd),
        mode == FILE_OPEN_MODE || mode == FILE_OPEN_CREATE_MODE,
        v.close_file(fd).0.lookup(name) matches Some(i) && !v.close_file(fd).0.files[i].opened,
    ensures
        v.close_file(fd).0.open_file(name, mode).1 is Ok,
{
    let s = v.close_file(fd).0;
    assert(s.file_array[fd as int] == 0);
    assert(fd >= 2);
    lemma_lowest_free(s.file_array, MAX_NUM_FD as nat);
}

/// Two descriptors that are open stand for two files, and two files that are
/// open have two names.
pub proof fn lemma_open_files_are_distinct(v: FsView, fd1: u32, fd2: u32)
    requires
        v.wf(),
        v.is_open(fd1),
        v.is_open(fd2),
        fd1 != fd2,
    ensures
        v.index_of(fd1) != v.index_of(fd2),
        v.file_of(fd1).name != v.file_of(fd2).name,
{
    assert(v.bound_apart(fd1 as int, fd2 as int));
    let i = v.index_of(fd1);
    let j = v.index_of(fd2);
    lemma_open_descriptor(v, fd1);
    lemma_open_descriptor(v, fd2);
    if i < j {
        assert(v.other_name_if_open(j, i));
    } else {
        assert(v.other_name_if_open(i, j));
    }
}

} // verus!
