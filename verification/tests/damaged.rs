use flatfs::directory::serialize_record;
use flatfs::disk::Disk;
use flatfs::error::FsError;
use flatfs::file::File;
use flatfs::file_system::FileSystem;
use flatfs::layout::{DIR_DATA_SIZE, FILE_OPEN_CREATE_MODE, FILE_OPEN_MODE};

const PARTITION: u32 = 200000;

fn file(name: &[u8], start_block: u32, num_blocks: u32, size: u32) -> File {
    File { filename: name.to_vec(), start_block, num_blocks, size, dir_data_off: 0, opened: false }
}

fn disk_with_records(count: u16, files: &[File], rest: &[u8], num_blocks: u32) -> Disk {
    let mut data = vec![0u8; DIR_DATA_SIZE];
    data[..4].copy_from_slice(b"$%^&");
    data[4..6].copy_from_slice(&count.to_le_bytes());
    let mut at = 6;
    for f in files {
        let bytes = serialize_record(f);
        data[at..at + bytes.len()].copy_from_slice(&bytes);
        at += bytes.len();
    }
    data[at..at + rest.len()].copy_from_slice(rest);
    let mut disk = Disk::new(num_blocks);
    assert_eq!(disk.write_blocks(&data, 0, 2), 1024);
    disk
}

#[test]
fn empty_file_that_claims_blocks_gets_a_new_extent() {
    let disk = disk_with_records(2, &[file(b"a", 10, 5, 0), file(b"b", 20, 1, 7)], &[], 64);
    let mut fs = FileSystem::initialize_file_system(disk, PARTITION);
    let a = fs.file_system_open_file(b"a", FILE_OPEN_MODE).unwrap();
    assert_eq!(fs.file_extent(a), Some((10, 5)));
    assert_eq!(fs.file_system_write_to_file(a, b"x", 0), Ok(1));
    // behind the other file, with as many blocks as the write needs
    assert_eq!(fs.file_extent(a), Some((21, 1)));
    assert_eq!(fs.file_size(a), Some(1));
}

#[test]
fn file_added_behind_an_overlong_name_is_lost_by_a_restart() {
    let disk = disk_with_records(3, &[file(b"a", 2, 1, 7)], &[0x01, 0x01], 64);
    let mut fs = FileSystem::initialize_file_system(disk, PARTITION);
    assert_eq!(fs.num_files(), 1);
    assert_eq!(fs.file_system_open_file(b"new", FILE_OPEN_CREATE_MODE), Ok(2));
    assert_eq!(fs.num_files(), 2);
    let mut fs = FileSystem::initialize_file_system(fs.close_file_system(), PARTITION);
    assert_eq!(fs.num_files(), 1);
    assert_eq!(fs.file_system_open_file(b"new", FILE_OPEN_MODE), Err(FsError::NotFound));
    assert_eq!(fs.file_system_open_file(b"a", FILE_OPEN_MODE), Ok(2));
}

#[test]
fn file_added_over_a_record_that_ran_over_is_kept_by_a_restart() {
    let disk = disk_with_records(2, &[file(b"a", 2, 1, 7)], &[0xFF, 0xFF], 64);
    let mut fs = FileSystem::initialize_file_system(disk, PARTITION);
    assert_eq!(fs.num_files(), 1);
    assert_eq!(fs.file_system_open_file(b"new", FILE_OPEN_CREATE_MODE), Ok(2));
    let mut fs = FileSystem::initialize_file_system(fs.close_file_system(), PARTITION);
    // the header counts three records now, and the bytes behind the new one are zeros:
    // they decode to a file without a name
    assert_eq!(fs.num_files(), 3);
    assert_eq!(fs.file_system_open_file(b"new", FILE_OPEN_MODE), Ok(2));
    assert_eq!(fs.file_system_open_file(b"", FILE_OPEN_MODE), Ok(3));
    assert_eq!(fs.file_size(3), Some(0));
}

#[test]
fn extent_beyond_the_device_yields_no_bytes() {
    let disk = disk_with_records(
        2,
        &[file(b"far", 1000, 2, 600), file(b"end", u32::MAX, u32::MAX, u32::MAX)],
        &[],
        8,
    );
    let mut fs = FileSystem::initialize_file_system(disk, PARTITION);
    let far = fs.file_system_open_file(b"far", FILE_OPEN_MODE).unwrap();
    let end = fs.file_system_open_file(b"end", FILE_OPEN_MODE).unwrap();
    let mut buf = [0xCCu8; 32];
    assert_eq!(fs.file_system_read_from_file(far, &mut buf, 0), Ok(0));
    assert_eq!(fs.file_system_read_from_file(end, &mut buf, 0), Ok(0));
    assert_eq!(fs.file_system_read_from_file(end, &mut buf, u32::MAX - 1), Ok(0));
    assert_eq!(buf, [0xCCu8; 32]);
    assert_eq!(fs.file_system_write_to_file(far, b"abc", 10), Ok(0));
    assert_eq!(fs.file_system_write_to_file(end, b"abc", 10), Ok(0));
    assert_eq!(fs.file_size(far), Some(600));
}

#[test]
fn file_cannot_grow_beyond_the_largest_size() {
    let disk = disk_with_records(1, &[file(b"big", 2, 1, u32::MAX - 2)], &[], 8);
    let mut fs = FileSystem::initialize_file_system(disk, PARTITION);
    let big = fs.file_system_open_file(b"big", FILE_OPEN_MODE).unwrap();
    // the write would end three bytes beyond the largest size
    assert_eq!(fs.file_system_write_to_file(big, b"abc", u32::MAX - 2), Err(FsError::Exhausted));
    assert_eq!(fs.file_system_write_to_file(big, b"abcde", u32::MAX - 4), Ok(0));
    assert_eq!(fs.file_size(big), Some(u32::MAX - 2));
    assert_eq!(fs.file_extent(big), Some((2, 1)));
    // within the file, on the device
    assert_eq!(fs.file_system_write_to_file(big, b"abc", 5), Ok(3));
    let mut buf = [0u8; 3];
    assert_eq!(fs.file_system_read_from_file(big, &mut buf, 5), Ok(3));
    assert_eq!(&buf, b"abc");
}

#[test]
fn overlapping_records_are_taken_as_they_are() {
    let disk = disk_with_records(2, &[file(b"a", 2, 2, 1024), file(b"b", 3, 2, 1024)], &[], 16);
    let mut fs = FileSystem::initialize_file_system(disk, PARTITION);
    let a = fs.file_system_open_file(b"a", FILE_OPEN_MODE).unwrap();
    let b = fs.file_system_open_file(b"b", FILE_OPEN_MODE).unwrap();
    assert_eq!(fs.file_system_write_to_file(a, &[1u8; 1024], 0), Ok(1024));
    let mut buf = [0u8; 1024];
    assert_eq!(fs.file_system_read_from_file(b, &mut buf, 0), Ok(1024));
    assert_eq!(&buf[..512], &[1u8; 512][..]);
    assert_eq!(&buf[512..], &[0u8; 512][..]);
    // neither can grow into the other
    assert_eq!(fs.file_system_write_to_file(a, &[1u8; 1], 1024), Err(FsError::Exhausted));
    // the last one can
    assert_eq!(fs.file_system_write_to_file(b, &[2u8; 1], 1024), Ok(1));
    assert_eq!(fs.file_extent(b), Some((3, 3)));
}
