use flatfs::disk::Disk;
use flatfs::error::FsError;
use flatfs::file::File;
use flatfs::file_system::FileSystem;
use flatfs::growth::{expand_empty_file, expand_existing_file, expand_file_size, zero_fill_blocks};
use flatfs::layout::{FILE_OPEN_CREATE_MODE, FILE_OPEN_MODE};

const PARTITION: u32 = 200000;

fn file(name: &[u8], start_block: u32, num_blocks: u32, size: u32, dir_data_off: u32) -> File {
    File { filename: name.to_vec(), start_block, num_blocks, size, dir_data_off, opened: false }
}

fn extent(f: &File) -> (u32, u32, u32) {
    (f.start_block, f.num_blocks, f.size)
}

#[test]
fn first_file_starts_behind_the_directory() {
    let mut fs = FileSystem::initialize_file_system(Disk::new(64), PARTITION);
    let fd = fs.file_system_open_file(b"a", FILE_OPEN_CREATE_MODE).unwrap();
    assert_eq!(fs.file_extent(fd), Some((0, 0)));
    assert_eq!(fs.file_size(fd), Some(0));
    assert_eq!(fs.file_system_write_to_file(fd, b"x", 0), Ok(1));
    assert_eq!(fs.file_extent(fd), Some((2, 1)));
    assert_eq!(fs.file_size(fd), Some(1));
}

#[test]
fn blocks_needed_round_up() {
    for (len, blocks) in [(1usize, 1u32), (511, 1), (512, 1), (513, 2), (1024, 2), (1025, 3)] {
        let mut fs = FileSystem::initialize_file_system(Disk::new(64), PARTITION);
        let fd = fs.file_system_open_file(b"a", FILE_OPEN_CREATE_MODE).unwrap();
        assert_eq!(fs.file_system_write_to_file(fd, &vec![9u8; len], 0), Ok(len as u32));
        assert_eq!(fs.file_extent(fd), Some((2, blocks)));
        assert_eq!(fs.file_size(fd), Some(len as u32));
    }
}

#[test]
fn files_are_packed_in_the_order_of_their_first_write() {
    let mut fs = FileSystem::initialize_file_system(Disk::new(64), PARTITION);
    let a = fs.file_system_open_file(b"a", FILE_OPEN_CREATE_MODE).unwrap();
    let b = fs.file_system_open_file(b"b", FILE_OPEN_CREATE_MODE).unwrap();
    let c = fs.file_system_open_file(b"c", FILE_OPEN_CREATE_MODE).unwrap();
    assert_eq!(fs.file_system_write_to_file(b, &[1u8; 513], 0), Ok(513));
    assert_eq!(fs.file_system_write_to_file(a, &[2u8; 1], 0), Ok(1));
    assert_eq!(fs.file_system_write_to_file(c, &[3u8; 2000], 0), Ok(2000));
    assert_eq!(fs.file_extent(b), Some((2, 2)));
    assert_eq!(fs.file_extent(a), Some((4, 1)));
    assert_eq!(fs.file_extent(c), Some((5, 4)));
}

#[test]
fn growth_in_place_needs_free_blocks_behind_the_file() {
    let mut fs = FileSystem::initialize_file_system(Disk::new(64), PARTITION);
    let a = fs.file_system_open_file(b"a", FILE_OPEN_CREATE_MODE).unwrap();
    let b = fs.file_system_open_file(b"b", FILE_OPEN_CREATE_MODE).unwrap();
    assert_eq!(fs.file_system_write_to_file(a, &[1u8; 1], 0), Ok(1));
    assert_eq!(fs.file_system_write_to_file(b, &[2u8; 513], 0), Ok(513));
    assert_eq!(fs.file_extent(a), Some((2, 1)));
    assert_eq!(fs.file_extent(b), Some((3, 2)));

    // `a` cannot grow beyond its block: only the byte that it has is written.
    assert_eq!(fs.file_system_write_to_file(a, &[3u8; 600], 0), Ok(1));
    assert_eq!(fs.file_size(a), Some(1));
    assert_eq!(fs.file_extent(a), Some((2, 1)));
    let mut one = [0u8; 1];
    assert_eq!(fs.file_system_read_from_file(a, &mut one, 0), Ok(1));
    assert_eq!(one, [3u8]);

    // Within its last block it can.
    assert_eq!(fs.file_system_write_to_file(a, &[4u8; 511], 1), Ok(511));
    assert_eq!(fs.file_size(a), Some(512));
    assert_eq!(fs.file_extent(a), Some((2, 1)));

    // At the end of a full block there is no room for even one byte.
    assert_eq!(fs.file_system_write_to_file(a, &[5u8; 1], 512), Err(FsError::Exhausted));
    assert_eq!(fs.file_size(a), Some(512));

    // `b` is the last file and grows in place.
    assert_eq!(fs.file_system_write_to_file(b, &[6u8; 2000], 513), Ok(2000));
    assert_eq!(fs.file_size(b), Some(2513));
    assert_eq!(fs.file_extent(b), Some((3, 6)));

    // A new file goes behind it.
    let c = fs.file_system_open_file(b"c", FILE_OPEN_CREATE_MODE).unwrap();
    assert_eq!(fs.file_system_write_to_file(c, &[7u8; 10], 0), Ok(10));
    assert_eq!(fs.file_extent(c), Some((9, 1)));

    // `b` kept what it had and got what was written.
    let mut buf = vec![0u8; 2513];
    assert_eq!(fs.file_system_read_from_file(b, &mut buf, 0), Ok(2513));
    assert!(buf[..513].iter().all(|x| *x == 2));
    assert!(buf[513..].iter().all(|x| *x == 6));
}

#[test]
fn extent_may_not_reach_the_end_of_the_partition() {
    let mut fs = FileSystem::initialize_file_system(Disk::new(64), 4);
    let a = fs.file_system_open_file(b"a", FILE_OPEN_CREATE_MODE).unwrap();
    // two blocks from block 2 on would reach block 4
    assert_eq!(fs.file_system_write_to_file(a, &[1u8; 513], 0), Err(FsError::Exhausted));
    assert_eq!(fs.file_extent(a), Some((0, 0)));
    assert_eq!(fs.file_size(a), Some(0));
    assert_eq!(fs.file_system_write_to_file(a, &[1u8; 512], 0), Ok(512));
    assert_eq!(fs.file_extent(a), Some((2, 1)));
    // growing in place by one block would reach block 4 too
    assert_eq!(fs.file_system_write_to_file(a, &[1u8; 1], 512), Err(FsError::Exhausted));
    assert_eq!(fs.file_system_write_to_file(a, &[2u8; 600], 0), Ok(512));
    assert_eq!(fs.file_extent(a), Some((2, 1)));
    let b = fs.file_system_open_file(b"b", FILE_OPEN_CREATE_MODE).unwrap();
    assert_eq!(fs.file_system_write_to_file(b, &[1u8; 1], 0), Err(FsError::Exhausted));
    assert_eq!(fs.file_extent(b), Some((0, 0)));
}

#[test]
fn size_and_blocks_never_shrink() {
    let mut fs = FileSystem::initialize_file_system(Disk::new(64), PARTITION);
    let a = fs.file_system_open_file(b"a", FILE_OPEN_CREATE_MODE).unwrap();
    let mut size = 0u32;
    let mut blocks = 0u32;
    for (len, offset) in [(700usize, 0u32), (10, 0), (1, 699), (0, 3), (400, 700), (5, 1100), (3000, 100)] {
        let r = fs.file_system_write_to_file(a, &vec![1u8; len], offset);
        assert_eq!(r, Ok(len as u32));
        let now = fs.file_size(a).unwrap();
        let (_, now_blocks) = fs.file_extent(a).unwrap();
        assert!(now >= size);
        assert!(now_blocks >= blocks);
        assert!(now as u64 <= now_blocks as u64 * 512);
        size = now;
        blocks = now_blocks;
    }
    assert_eq!(size, 3100);
    // 2 blocks for 700 bytes, 1 more for 76 bytes beyond 1024, 4 more for 1995 bytes beyond 1105
    assert_eq!(blocks, 7);
}

#[test]
fn extents_never_overlap() {
    let mut fs = FileSystem::initialize_file_system(Disk::new(256), PARTITION);
    let names: [&[u8]; 4] = [b"a", b"b", b"c", b"d"];
    let mut fds = Vec::new();
    for name in names {
        fds.push(fs.file_system_open_file(name, FILE_OPEN_CREATE_MODE).unwrap());
    }
    let writes: [(usize, usize); 9] =
        [(2, 100), (0, 600), (1, 1), (3, 5000), (0, 700), (1, 600), (2, 513), (3, 7000), (1, 3)];
    for (who, len) in writes {
        let size = fs.file_size(fds[who]).unwrap();
        let _ = fs.file_system_write_to_file(fds[who], &vec![who as u8; len], size);
        let extents: Vec<(u32, u32)> =
            fds.iter().map(|fd| fs.file_extent(*fd).unwrap()).collect();
        for i in 0..extents.len() {
            for j in 0..extents.len() {
                let (si, ni) = extents[i];
                let (sj, nj) = extents[j];
                if i != j && ni > 0 && nj > 0 {
                    assert!(si + ni <= sj || sj + nj <= si);
                }
                if ni > 0 {
                    assert!(si >= 2);
                }
            }
        }
    }
    assert_eq!(fs.file_extent(fds[2]), Some((2, 1)));
    assert_eq!(fs.file_extent(fds[0]), Some((3, 2)));
    assert_eq!(fs.file_extent(fds[1]), Some((5, 1)));
    assert_eq!(fs.file_extent(fds[3]), Some((6, 24)));
}

#[test]
fn empty_file_goes_behind_every_other_extent() {
    let mut files = vec![
        file(b"a", 10, 5, 2000, 6),
        file(b"b", 0, 0, 0, 22),
        file(b"c", 3, 2, 600, 38),
        file(b"d", 40, 0, 0, 54),
    ];
    let mut disk = Disk::new(64);
    assert_eq!(expand_empty_file(&mut files, 1, 3, 100, &mut disk), Ok(()));
    // the empty extent of `d` ends at block 40
    assert_eq!(extent(&files[1]), (40, 3, 0));
    assert!(disk.is_written(40) && disk.is_written(42) && !disk.is_written(43));
    assert!(!disk.is_written(39));
    // the file's own extent does not count
    assert_eq!(expand_empty_file(&mut files, 3, 1, 100, &mut disk), Ok(()));
    assert_eq!(extent(&files[3]), (43, 1, 0));
    // behind block 43 the partition of 100 blocks has room for 55 blocks, not for 56
    assert_eq!(expand_empty_file(&mut files, 1, 56, 100, &mut disk), Err(FsError::Exhausted));
    assert_eq!(extent(&files[1]), (40, 3, 0));
    assert_eq!(expand_empty_file(&mut files, 1, 55, 100, &mut disk), Ok(()));
    assert_eq!(extent(&files[1]), (44, 55, 0));
}

#[test]
fn empty_file_in_an_empty_registry_starts_at_block_two() {
    let mut files = vec![file(b"a", 0, 0, 0, 6)];
    let mut disk = Disk::new(8);
    assert_eq!(expand_empty_file(&mut files, 0, 1, 3, &mut disk), Err(FsError::Exhausted));
    assert_eq!(expand_empty_file(&mut files, 0, 1, 4, &mut disk), Ok(()));
    assert_eq!(extent(&files[0]), (2, 1, 0));
}

#[test]
fn growing_in_place_checks_the_blocks_behind_the_extent() {
    let mut files = vec![
        file(b"a", 2, 3, 1500, 6),
        file(b"b", 8, 2, 600, 22),
        file(b"c", 0, 0, 0, 38),
    ];
    let mut disk = Disk::new(64);
    // blocks 5, 6, 7 are free, block 8 is not
    assert_eq!(expand_existing_file(&mut files, 0, 4, 100, &mut disk), Err(FsError::Exhausted));
    assert_eq!(extent(&files[0]), (2, 3, 1500));
    assert!(!disk.is_written(5));
    assert_eq!(expand_existing_file(&mut files, 0, 3, 100, &mut disk), Ok(()));
    assert_eq!(extent(&files[0]), (2, 6, 1500));
    assert!(disk.is_written(5) && disk.is_written(6) && disk.is_written(7));
    assert!(!disk.is_written(4) && !disk.is_written(8));
    assert_eq!(expand_existing_file(&mut files, 0, 1, 100, &mut disk), Err(FsError::Exhausted));
    // the last file is held back by the end of the partition only
    assert_eq!(expand_existing_file(&mut files, 1, 90, 100, &mut disk), Err(FsError::Exhausted));
    assert_eq!(expand_existing_file(&mut files, 1, 89, 100, &mut disk), Ok(()));
    assert_eq!(extent(&files[1]), (8, 91, 600));
}

#[test]
fn growing_by_no_block_claims_nothing() {
    let mut files = vec![file(b"a", 2, 3, 1500, 6), file(b"b", 4, 6, 600, 22)];
    let mut disk = Disk::new(64);
    assert_eq!(expand_existing_file(&mut files, 0, 0, 100, &mut disk), Ok(()));
    assert_eq!(extent(&files[0]), (2, 3, 1500));
    assert!(!disk.is_written(5));
    // at the end of the partition there is no room, not even for no block
    assert_eq!(expand_existing_file(&mut files, 0, 0, 5, &mut disk), Err(FsError::Exhausted));
}

#[test]
fn new_blocks_are_zeroed() {
    let mut disk = Disk::new(8);
    assert_eq!(disk.write_blocks(&[0xEEu8; 512 * 8], 0, 8), 512 * 8);
    zero_fill_blocks(&mut disk, 3, 2);
    let mut buf = [1u8; 512 * 8];
    assert_eq!(disk.read_blocks(&mut buf, 0, 8), 512 * 8);
    assert!(buf[..3 * 512].iter().all(|b| *b == 0xEE));
    assert!(buf[3 * 512..5 * 512].iter().all(|b| *b == 0));
    assert!(buf[5 * 512..].iter().all(|b| *b == 0xEE));
    // blocks that the device does not have are passed over
    zero_fill_blocks(&mut disk, 7, 5);
    assert_eq!(disk.read_blocks(&mut buf, 0, 8), 512 * 8);
    assert!(buf[5 * 512..7 * 512].iter().all(|b| *b == 0xEE));
    assert!(buf[7 * 512..].iter().all(|b| *b == 0));
}

#[test]
fn growing_updates_record_region_and_device() {
    let mut files = vec![file(b"ab", 0, 0, 0, 6), file(b"c", 2, 1, 100, 23)];
    let mut dir_data = vec![0x11u8; 1024];
    let mut disk = Disk::new(8);
    assert_eq!(expand_file_size(&mut files, 0, 513, 100, &mut dir_data, &mut disk), Ok(()));
    assert_eq!(extent(&files[0]), (3, 2, 513));
    let mut expected = vec![0x11u8; 1024];
    expected[6..23].copy_from_slice(&[
        2, 0, b'a', b'b', 0, 3, 0, 0, 0, 2, 0, 0, 0, 1, 2, 0, 0,
    ]);
    assert_eq!(dir_data, expected);
    let mut on_disk = [0u8; 1024];
    assert_eq!(disk.read_blocks(&mut on_disk, 0, 2), 1024);
    assert_eq!(&on_disk[..], &expected[..]);
    assert!(disk.is_written(3) && disk.is_written(4) && !disk.is_written(2));

    // a file that is large enough stays as it is
    let before = dir_data.clone();
    assert_eq!(expand_file_size(&mut files, 0, 513, 100, &mut dir_data, &mut disk), Ok(()));
    assert_eq!(expand_file_size(&mut files, 0, 7, 100, &mut dir_data, &mut disk), Ok(()));
    assert_eq!(extent(&files[0]), (3, 2, 513));
    assert_eq!(dir_data, before);

    // the other file is hemmed in, and nothing changes when it cannot grow
    assert_eq!(
        expand_file_size(&mut files, 1, 513, 100, &mut dir_data, &mut disk),
        Err(FsError::Exhausted)
    );
    assert_eq!(extent(&files[1]), (2, 1, 100));
    assert_eq!(dir_data, before);
    // within its block it grows
    assert_eq!(expand_file_size(&mut files, 1, 512, 100, &mut dir_data, &mut disk), Ok(()));
    assert_eq!(extent(&files[1]), (2, 1, 512));
    assert_eq!(&dir_data[23..39], &[1, 0, b'c', 0, 2, 0, 0, 0, 1, 0, 0, 0, 0, 2, 0, 0]);
}

#[test]
fn reopened_file_keeps_its_extent() {
    let mut fs = FileSystem::initialize_file_system(Disk::new(64), PARTITION);
    let a = fs.file_system_open_file(b"a", FILE_OPEN_CREATE_MODE).unwrap();
    assert_eq!(fs.file_system_write_to_file(a, &[1u8; 1000], 0), Ok(1000));
    assert_eq!(fs.file_system_close_file(a), Ok(()));
    let a = fs.file_system_open_file(b"a", FILE_OPEN_MODE).unwrap();
    assert_eq!(fs.file_extent(a), Some((2, 2)));
    assert_eq!(fs.file_size(a), Some(1000));
}
