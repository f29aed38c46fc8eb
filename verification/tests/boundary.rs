use flatfs::disk::Disk;
use flatfs::error::FsError;
use flatfs::file_system::FileSystem;
use flatfs::layout::FILE_OPEN_CREATE_MODE;

const PARTITION: u32 = 200000;

fn fs_with_file(len: usize) -> (FileSystem, u32, Vec<u8>) {
    let mut fs = FileSystem::initialize_file_system(Disk::new(64), PARTITION);
    let fd = fs.file_system_open_file(b"f", FILE_OPEN_CREATE_MODE).unwrap();
    let data: Vec<u8> = (0..len).map(|i| (i % 199) as u8 + 1).collect();
    assert_eq!(fs.file_system_write_to_file(fd, &data, 0), Ok(len as u32));
    (fs, fd, data)
}

#[test]
fn read_at_the_end_yields_nothing() {
    let (fs, fd, _) = fs_with_file(700);
    let mut buf = [0xCCu8; 16];
    assert_eq!(fs.file_system_read_from_file(fd, &mut buf, 700), Ok(0));
    assert_eq!(fs.file_system_read_from_file(fd, &mut buf, 701), Ok(0));
    assert_eq!(fs.file_system_read_from_file(fd, &mut buf, u32::MAX), Ok(0));
    assert_eq!(buf, [0xCCu8; 16]);
}

#[test]
fn read_of_an_empty_file_yields_nothing() {
    let mut fs = FileSystem::initialize_file_system(Disk::new(64), PARTITION);
    let fd = fs.file_system_open_file(b"f", FILE_OPEN_CREATE_MODE).unwrap();
    let mut buf = [0xCCu8; 16];
    assert_eq!(fs.file_system_read_from_file(fd, &mut buf, 0), Ok(0));
    assert_eq!(buf, [0xCCu8; 16]);
}

#[test]
fn read_beyond_the_end_is_cut_off() {
    let (fs, fd, data) = fs_with_file(700);
    let mut buf = [0xCCu8; 100];
    assert_eq!(fs.file_system_read_from_file(fd, &mut buf, 650), Ok(50));
    assert_eq!(&buf[..50], &data[650..]);
    assert_eq!(&buf[50..], &[0xCCu8; 50]);
    let mut buf = [0xCCu8; 1];
    assert_eq!(fs.file_system_read_from_file(fd, &mut buf, 699), Ok(1));
    assert_eq!(buf[0], data[699]);
    let mut large = vec![0xCCu8; 5000];
    assert_eq!(fs.file_system_read_from_file(fd, &mut large, 0), Ok(700));
    assert_eq!(&large[..700], &data[..]);
    assert!(large[700..].iter().all(|b| *b == 0xCC));
}

#[test]
fn read_into_an_empty_buffer_yields_nothing() {
    let (fs, fd, _) = fs_with_file(700);
    let mut buf: [u8; 0] = [];
    assert_eq!(fs.file_system_read_from_file(fd, &mut buf, 0), Ok(0));
    assert_eq!(fs.file_system_read_from_file(fd, &mut buf, 10), Ok(0));
}

#[test]
fn read_that_starts_and_ends_within_blocks() {
    let (fs, fd, data) = fs_with_file(2000);
    for (offset, len) in [(0usize, 1usize), (511, 2), (512, 512), (100, 1500), (1023, 977), (513, 510)] {
        let mut buf = vec![0u8; len];
        assert_eq!(fs.file_system_read_from_file(fd, &mut buf, offset as u32), Ok(len as u32));
        assert_eq!(&buf[..], &data[offset..offset + len]);
    }
}

#[test]
fn write_beyond_the_end_is_refused() {
    let (mut fs, fd, data) = fs_with_file(700);
    assert_eq!(fs.file_system_write_to_file(fd, b"x", 701), Err(FsError::InvalidArgument));
    assert_eq!(fs.file_system_write_to_file(fd, b"", 701), Err(FsError::InvalidArgument));
    assert_eq!(fs.file_system_write_to_file(fd, b"x", u32::MAX), Err(FsError::InvalidArgument));
    assert_eq!(fs.file_size(fd), Some(700));
    let mut buf = vec![0u8; 700];
    assert_eq!(fs.file_system_read_from_file(fd, &mut buf, 0), Ok(700));
    assert_eq!(buf, data);
}

#[test]
fn write_at_the_end_appends() {
    let (mut fs, fd, data) = fs_with_file(700);
    assert_eq!(fs.file_system_write_to_file(fd, b"xyz", 700), Ok(3));
    assert_eq!(fs.file_size(fd), Some(703));
    let mut buf = vec![0u8; 703];
    assert_eq!(fs.file_system_read_from_file(fd, &mut buf, 0), Ok(703));
    assert_eq!(&buf[..700], &data[..]);
    assert_eq!(&buf[700..], b"xyz");
}

#[test]
fn write_of_nothing_changes_nothing() {
    let (mut fs, fd, data) = fs_with_file(700);
    assert_eq!(fs.file_system_write_to_file(fd, b"", 0), Ok(0));
    assert_eq!(fs.file_system_write_to_file(fd, b"", 350), Ok(0));
    assert_eq!(fs.file_system_write_to_file(fd, b"", 700), Ok(0));
    assert_eq!(fs.file_size(fd), Some(700));
    assert_eq!(fs.file_extent(fd), Some((2, 2)));
    let mut buf = vec![0u8; 700];
    assert_eq!(fs.file_system_read_from_file(fd, &mut buf, 0), Ok(700));
    assert_eq!(buf, data);
}

#[test]
fn write_within_the_file_keeps_its_size() {
    let (mut fs, fd, data) = fs_with_file(1500);
    assert_eq!(fs.file_system_write_to_file(fd, &[0u8; 600], 300), Ok(600));
    assert_eq!(fs.file_size(fd), Some(1500));
    assert_eq!(fs.file_extent(fd), Some((2, 3)));
    let mut buf = vec![0xCCu8; 1500];
    assert_eq!(fs.file_system_read_from_file(fd, &mut buf, 0), Ok(1500));
    assert_eq!(&buf[..300], &data[..300]);
    assert_eq!(&buf[300..900], &[0u8; 600][..]);
    assert_eq!(&buf[900..], &data[900..]);
}

#[test]
fn bytes_between_the_written_and_the_end_of_the_block_are_zero() {
    let mut fs = FileSystem::initialize_file_system(Disk::new(64), PARTITION);
    let fd = fs.file_system_open_file(b"f", FILE_OPEN_CREATE_MODE).unwrap();
    assert_eq!(fs.file_system_write_to_file(fd, &[9u8; 10], 0), Ok(10));
    let disk = fs.close_file_system();
    let mut block = [0xCCu8; 512];
    assert_eq!(disk.read_blocks(&mut block, 2, 1), 512);
    assert_eq!(&block[..10], &[9u8; 10]);
    assert!(block[10..].iter().all(|b| *b == 0));
    assert!(disk.is_written(2) && !disk.is_written(3));
}

#[test]
fn filesystem_works_on_a_device_without_blocks() {
    let mut fs = FileSystem::initialize_file_system(Disk::new(0), PARTITION);
    let fd = fs.file_system_open_file(b"f", FILE_OPEN_CREATE_MODE).unwrap();
    assert_eq!(fs.file_system_write_to_file(fd, &[9u8; 10], 0), Ok(0));
    assert_eq!(fs.file_size(fd), Some(10));
    let mut buf = [0u8; 10];
    assert_eq!(fs.file_system_read_from_file(fd, &mut buf, 0), Ok(0));
    let disk = fs.close_file_system();
    assert_eq!(disk.num_blocks(), 0);
    // nothing was kept
    let mut fs = FileSystem::initialize_file_system(disk, PARTITION);
    assert_eq!(fs.num_files(), 0);
    assert_eq!(fs.file_system_open_file(b"f", 0), Err(FsError::NotFound));
}
