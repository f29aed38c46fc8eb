use flatfs::codec::{bytes_eq, copy_into, push_bytes, push_u16, push_u32, read_u16, read_u32};
use flatfs::directory::{
    add_file_to_directory, decode_directory, flush_dir_data_to_storage,
    read_dir_data_from_storage, serialize_record, update_file_in_directory,
};
use flatfs::disk::Disk;
use flatfs::error::FsError;
use flatfs::file::File;
use flatfs::file_system::FileSystem;
use flatfs::layout::{
    DIR_DATA_SIZE, FILE_OPEN_CREATE_MODE, FILE_OPEN_MODE, MAX_FILENAME_SIZE,
};

const PARTITION: u32 = 200000;
const SIGNATURE: [u8; 4] = [b'$', b'%', b'^', b'&'];

fn file(name: &[u8], start_block: u32, num_blocks: u32, size: u32, dir_data_off: u32) -> File {
    File { filename: name.to_vec(), start_block, num_blocks, size, dir_data_off, opened: false }
}

fn fields(f: &File) -> (Vec<u8>, u32, u32, u32, u32, bool) {
    (f.filename.clone(), f.start_block, f.num_blocks, f.size, f.dir_data_off, f.opened)
}

fn region(count: u16, records: &[u8]) -> Vec<u8> {
    let mut data = vec![0u8; DIR_DATA_SIZE];
    data[..4].copy_from_slice(&SIGNATURE);
    data[4..6].copy_from_slice(&count.to_le_bytes());
    data[6..6 + records.len()].copy_from_slice(records);
    data
}

fn disk_with(region: &[u8], num_blocks: u32) -> Disk {
    let mut disk = Disk::new(num_blocks);
    assert_eq!(disk.write_blocks(region, 0, 2), 1024);
    disk
}

fn stored_region(disk: &Disk) -> Vec<u8> {
    let mut buf = vec![0u8; DIR_DATA_SIZE];
    assert_eq!(disk.read_blocks(&mut buf, 0, 2), 1024);
    buf
}

#[test]
fn integers_are_stored_least_significant_byte_first() {
    let mut out = vec![0xAAu8];
    push_u16(&mut out, 0x1234);
    push_u32(&mut out, 0x89ABCDEF);
    push_u16(&mut out, 0);
    push_u32(&mut out, u32::MAX);
    push_u16(&mut out, u16::MAX);
    push_u32(&mut out, 1);
    assert_eq!(
        out,
        vec![
            0xAA, 0x34, 0x12, 0xEF, 0xCD, 0xAB, 0x89, 0, 0, 0xFF, 0xFF, 0xFF, 0xFF, 0xFF, 0xFF,
            1, 0, 0, 0
        ]
    );
    assert_eq!(read_u16(&out, 1), 0x1234);
    assert_eq!(read_u32(&out, 3), 0x89ABCDEF);
    assert_eq!(read_u16(&out, 7), 0);
    assert_eq!(read_u32(&out, 9), u32::MAX);
    assert_eq!(read_u16(&out, 13), u16::MAX);
    assert_eq!(read_u32(&out, 15), 1);
    assert_eq!(read_u16(&[0x00, 0x01], 0), 256);
    assert_eq!(read_u32(&[0, 0, 0, 0x80], 0), 0x8000_0000);
}

#[test]
fn byte_helpers_copy_and_compare() {
    let mut out = vec![1u8, 2];
    push_bytes(&mut out, &[3, 4, 5]);
    push_bytes(&mut out, &[]);
    assert_eq!(out, vec![1, 2, 3, 4, 5]);
    copy_into(&mut out, 1, &[9, 8]);
    assert_eq!(out, vec![1, 9, 8, 4, 5]);
    copy_into(&mut out, 5, &[]);
    copy_into(&mut out, 3, &[7, 6]);
    assert_eq!(out, vec![1, 9, 8, 7, 6]);
    assert!(bytes_eq(b"abc", b"abc"));
    assert!(bytes_eq(b"", b""));
    assert!(!bytes_eq(b"abc", b"abd"));
    assert!(!bytes_eq(b"abc", b"ab"));
    assert!(!bytes_eq(b"ab", b"abc"));
}

#[test]
fn record_has_its_fields_in_order() {
    let f = file(b"hello", 2, 1, 22, 6);
    assert_eq!(
        serialize_record(&f),
        vec![5, 0, b'h', b'e', b'l', b'l', b'o', 0, 2, 0, 0, 0, 1, 0, 0, 0, 22, 0, 0, 0]
    );
    let empty = file(b"", 0x01020304, 0x0A0B0C0D, 0xFFFFFFFE, 900);
    assert_eq!(
        serialize_record(&empty),
        vec![0, 0, 0, 4, 3, 2, 1, 0x0D, 0x0C, 0x0B, 0x0A, 0xFE, 0xFF, 0xFF, 0xFF]
    );
    let long = file(&[b'n'; 256], 1, 2, 3, 6);
    let bytes = serialize_record(&long);
    assert_eq!(bytes.len(), 256 + 15);
    assert_eq!(&bytes[..2], &[0, 1]);
    assert_eq!(bytes[258], 0);
}

#[test]
fn record_is_written_at_its_place() {
    let mut dir_data = vec![0x77u8; DIR_DATA_SIZE];
    let f = file(b"ab", 3, 4, 5, 100);
    assert_eq!(update_file_in_directory(&mut dir_data, &f), Ok(()));
    let mut expected = vec![0x77u8; DIR_DATA_SIZE];
    expected[100..117].copy_from_slice(&[2, 0, b'a', b'b', 0, 3, 0, 0, 0, 4, 0, 0, 0, 5, 0, 0, 0]);
    assert_eq!(dir_data, expected);
    // the last place that holds the record
    let last = file(b"ab", 3, 4, 5, 1007);
    assert_eq!(update_file_in_directory(&mut dir_data, &last), Ok(()));
    assert_eq!(&dir_data[1007..], &[2, 0, b'a', b'b', 0, 3, 0, 0, 0, 4, 0, 0, 0, 5, 0, 0, 0]);
}

#[test]
fn record_that_has_no_place_is_refused() {
    let mut dir_data = vec![0x77u8; DIR_DATA_SIZE];
    let over = file(b"ab", 3, 4, 5, 1008);
    assert_eq!(update_file_in_directory(&mut dir_data, &over), Err(FsError::CapacityExceeded));
    let far = file(b"ab", 3, 4, 5, u32::MAX);
    assert_eq!(update_file_in_directory(&mut dir_data, &far), Err(FsError::CapacityExceeded));
    let long = file(&[b'n'; 257], 3, 4, 5, 6);
    assert_eq!(update_file_in_directory(&mut dir_data, &long), Err(FsError::CapacityExceeded));
    assert_eq!(dir_data, vec![0x77u8; DIR_DATA_SIZE]);
}

#[test]
fn adding_a_record_moves_the_cursor_and_counts() {
    let mut dir_data = region(0, &[]);
    let mut cursor = 6usize;
    let mut disk = Disk::new(4);
    let mut f = file(b"hello", 0, 0, 0, 0);
    assert_eq!(add_file_to_directory(&mut dir_data, &mut cursor, &mut f, &mut disk), Ok(()));
    assert_eq!(cursor, 26);
    assert_eq!(f.dir_data_off, 6);
    let mut expected = region(1, &[5, 0, b'h', b'e', b'l', b'l', b'o', 0]);
    assert_eq!(dir_data, expected);
    assert_eq!(stored_region(&disk), expected);

    let mut g = file(b"", 0, 0, 0, 0);
    assert_eq!(add_file_to_directory(&mut dir_data, &mut cursor, &mut g, &mut disk), Ok(()));
    assert_eq!(cursor, 41);
    assert_eq!(g.dir_data_off, 26);
    expected[4] = 2;
    assert_eq!(dir_data, expected);
    assert_eq!(stored_region(&disk), expected);
}

#[test]
fn count_is_carried_into_its_second_byte() {
    let mut dir_data = region(255, &[]);
    let mut cursor = 6usize;
    let mut disk = Disk::new(4);
    let mut f = file(b"a", 0, 0, 0, 0);
    assert_eq!(add_file_to_directory(&mut dir_data, &mut cursor, &mut f, &mut disk), Ok(()));
    assert_eq!(&dir_data[4..6], &[0, 1]);
}

#[test]
fn record_that_the_region_cannot_take_is_not_added() {
    let mut disk = Disk::new(4);
    let mut dir_data = region(3, &[]);
    let before = dir_data.clone();

    let mut long = file(&[b'n'; MAX_FILENAME_SIZE + 1], 0, 0, 0, 0);
    let mut cursor = 6usize;
    assert_eq!(
        add_file_to_directory(&mut dir_data, &mut cursor, &mut long, &mut disk),
        Err(FsError::CapacityExceeded)
    );

    // a name of 10 bytes takes 25 bytes: it fits at 999 and not at 1000
    let mut f = file(&[b'n'; 10], 0, 0, 0, 0);
    let mut cursor = 1000usize;
    assert_eq!(
        add_file_to_directory(&mut dir_data, &mut cursor, &mut f, &mut disk),
        Err(FsError::CapacityExceeded)
    );
    assert_eq!(cursor, 1000);
    assert_eq!(f.dir_data_off, 0);
    assert_eq!(dir_data, before);
    assert!(!disk.is_written(0));
    let mut cursor = 999usize;
    assert_eq!(add_file_to_directory(&mut dir_data, &mut cursor, &mut f, &mut disk), Ok(()));
    assert_eq!(cursor, 1024);
    assert_eq!(f.dir_data_off, 999);

    // a count that cannot be raised
    let mut full = region(u16::MAX, &[]);
    let mut cursor = 6usize;
    let mut g = file(b"a", 0, 0, 0, 0);
    assert_eq!(
        add_file_to_directory(&mut full, &mut cursor, &mut g, &mut disk),
        Err(FsError::CapacityExceeded)
    );
    assert_eq!(full, region(u16::MAX, &[]));
}

#[test]
fn region_is_flushed_and_read() {
    let region: Vec<u8> = (0..DIR_DATA_SIZE).map(|i| (i % 253) as u8).collect();
    let mut disk = Disk::new(3);
    flush_dir_data_to_storage(&region, &mut disk);
    assert!(disk.is_written(0) && disk.is_written(1) && !disk.is_written(2));
    assert_eq!(read_dir_data_from_storage(&disk), region);

    // a device of one block keeps the first half, the rest reads as zeros
    let mut small = Disk::new(1);
    flush_dir_data_to_storage(&region, &mut small);
    let read = read_dir_data_from_storage(&small);
    assert_eq!(&read[..512], &region[..512]);
    assert!(read[512..].iter().all(|b| *b == 0));
    assert_eq!(read_dir_data_from_storage(&Disk::new(0)), vec![0u8; DIR_DATA_SIZE]);
}

#[test]
fn records_are_decoded_in_order() {
    let mut records = Vec::new();
    records.extend_from_slice(&serialize_record(&file(b"hello", 2, 1, 22, 0)));
    records.extend_from_slice(&serialize_record(&file(b"", 7, 8, 9, 0)));
    records.extend_from_slice(&serialize_record(&file(&[b'x'; 256], 0, 0, 0, 0)));
    let data = region(3, &records);
    let (files, cursor) = decode_directory(&data);
    assert_eq!(files.len(), 3);
    assert_eq!(fields(&files[0]), (b"hello".to_vec(), 2, 1, 22, 6, false));
    assert_eq!(fields(&files[1]), (vec![], 7, 8, 9, 26, false));
    assert_eq!(fields(&files[2]), (vec![b'x'; 256], 0, 0, 0, 41, false));
    assert_eq!(cursor, 41 + 271);

    // no more records are taken than the header counts
    let (files, cursor) = decode_directory(&region(1, &records));
    assert_eq!(files.len(), 1);
    assert_eq!(cursor, 26);
    let (files, cursor) = decode_directory(&region(0, &records));
    assert_eq!(files.len(), 0);
    assert_eq!(cursor, 6);
}

#[test]
fn terminator_byte_is_not_looked_at() {
    let mut records = serialize_record(&file(b"ab", 1, 2, 3, 0));
    records[4] = 0x99;
    let (files, cursor) = decode_directory(&region(1, &records));
    assert_eq!(files.len(), 1);
    assert_eq!(fields(&files[0]), (b"ab".to_vec(), 1, 2, 3, 6, false));
    assert_eq!(cursor, 23);
}

#[test]
fn decoding_stops_at_a_name_that_is_too_long() {
    let mut records = serialize_record(&file(b"a", 2, 1, 10, 0));
    records.extend_from_slice(&[0x01, 0x01]); // a name of 257 bytes
    records.extend_from_slice(&[b'z'; 300]);
    let (files, cursor) = decode_directory(&region(5, &records));
    assert_eq!(files.len(), 1);
    assert_eq!(fields(&files[0]), (b"a".to_vec(), 2, 1, 10, 6, false));
    // the length field of the record that was refused has been passed
    assert_eq!(cursor, 24);
}

#[test]
fn decoding_stops_at_a_record_that_runs_over_the_region() {
    let mut records = serialize_record(&file(&[b'a'; 200], 2, 1, 10, 0));
    // at 221 a record with a name of 789 bytes would end at 1025
    records.extend_from_slice(&[0x15, 0x03]);
    let (files, cursor) = decode_directory(&region(2, &records));
    assert_eq!(files.len(), 1);
    assert_eq!(cursor, 221);

    // one with a name of 788 bytes ends at 1024, and is refused for its name
    let mut records = serialize_record(&file(&[b'a'; 200], 2, 1, 10, 0));
    records.extend_from_slice(&[0x14, 0x03]);
    let (files, cursor) = decode_directory(&region(2, &records));
    assert_eq!(files.len(), 1);
    assert_eq!(cursor, 223);
}

#[test]
fn decoding_stops_where_no_length_field_fits() {
    // three records of 256-byte names and one of 190 end at 1024
    let mut records = Vec::new();
    for _ in 0..3 {
        records.extend_from_slice(&serialize_record(&file(&[b'a'; 256], 0, 0, 0, 0)));
    }
    records.extend_from_slice(&serialize_record(&file(&[b'b'; 190], 0, 0, 0, 0)));
    assert_eq!(records.len(), 1018);
    let (files, cursor) = decode_directory(&region(6, &records));
    assert_eq!(files.len(), 4);
    assert_eq!(cursor, 1024);
}

#[test]
fn device_without_signature_is_formatted() {
    let mut disk = Disk::new(4);
    assert_eq!(disk.write_blocks(&[0x5Au8; 2048], 0, 4), 2048);
    let fs = FileSystem::initialize_file_system(disk, PARTITION);
    assert_eq!(fs.num_files(), 0);
    let disk = fs.close_file_system();
    let stored = stored_region(&disk);
    assert_eq!(&stored[..6], &[b'$', b'%', b'^', b'&', 0, 0]);
    // only the header is set, the rest of the region stays
    assert!(stored[6..].iter().all(|b| *b == 0x5A));
}

#[test]
fn formatting_is_written_to_the_device_at_once() {
    let fs = FileSystem::initialize_file_system(Disk::new(4), PARTITION);
    // the device is handed back by a second filesystem that never wrote
    let disk = fs.close_file_system();
    assert!(disk.is_written(0) && disk.is_written(1) && !disk.is_written(2));
    let mut expected = vec![0u8; DIR_DATA_SIZE];
    expected[..4].copy_from_slice(&SIGNATURE);
    assert_eq!(stored_region(&disk), expected);
}

#[test]
fn created_file_is_on_the_device_before_shutdown() {
    let mut fs = FileSystem::initialize_file_system(Disk::new(8), PARTITION);
    let fd = fs.file_system_open_file(b"hello", FILE_OPEN_CREATE_MODE).unwrap();
    assert_eq!(fs.file_system_write_to_file(fd, &[7u8; 22], 0), Ok(22));
    let disk = fs.close_file_system();
    let expected = region(
        1,
        &[5, 0, b'h', b'e', b'l', b'l', b'o', 0, 2, 0, 0, 0, 1, 0, 0, 0, 22, 0, 0, 0],
    );
    assert_eq!(stored_region(&disk), expected);
}

#[test]
fn damaged_region_yields_the_files_before_the_damage() {
    let mut records = serialize_record(&file(b"a", 2, 1, 10, 0));
    records.extend_from_slice(&serialize_record(&file(b"b", 3, 1, 5, 0)));
    records.extend_from_slice(&[0x01, 0x01]);
    let mut fs =
        FileSystem::initialize_file_system(disk_with(&region(7, &records), 8), PARTITION);
    assert_eq!(fs.num_files(), 2);
    let b = fs.file_system_open_file(b"b", FILE_OPEN_MODE).unwrap();
    assert_eq!(fs.file_extent(b), Some((3, 1)));
    assert_eq!(fs.file_size(b), Some(5));

    // a new record goes where the cursor was left, and the count is raised
    let c = fs.file_system_open_file(b"c", FILE_OPEN_CREATE_MODE).unwrap();
    assert_eq!(fs.num_files(), 3);
    assert_eq!(fs.file_system_write_to_file(c, &[1u8; 3], 0), Ok(3));
    assert_eq!(fs.file_extent(c), Some((4, 1)));
    let stored = stored_region(&fs.close_file_system());
    assert_eq!(&stored[4..6], &[8, 0]);
    assert_eq!(&stored[38..40], &[0x01, 0x01]);
    assert_eq!(&stored[40..56], &[1, 0, b'c', 0, 4, 0, 0, 0, 1, 0, 0, 0, 3, 0, 0, 0]);
}

#[test]
fn first_file_of_a_name_is_the_one_that_opens() {
    let mut records = serialize_record(&file(b"a", 2, 1, 10, 0));
    records.extend_from_slice(&serialize_record(&file(b"a", 3, 1, 5, 0)));
    let mut fs =
        FileSystem::initialize_file_system(disk_with(&region(2, &records), 8), PARTITION);
    assert_eq!(fs.num_files(), 2);
    let fd = fs.file_system_open_file(b"a", FILE_OPEN_MODE).unwrap();
    assert_eq!(fs.file_extent(fd), Some((2, 1)));
    assert_eq!(fs.file_system_open_file(b"a", FILE_OPEN_MODE), Err(FsError::AlreadyOpen));
}

#[test]
fn name_of_the_greatest_length_is_accepted() {
    let mut fs = FileSystem::initialize_file_system(Disk::new(8), PARTITION);
    let name = [b'n'; MAX_FILENAME_SIZE];
    assert_eq!(fs.file_system_open_file(&name, FILE_OPEN_CREATE_MODE), Ok(2));
    let longer = [b'n'; MAX_FILENAME_SIZE + 1];
    assert_eq!(
        fs.file_system_open_file(&longer, FILE_OPEN_CREATE_MODE),
        Err(FsError::CapacityExceeded)
    );
    assert_eq!(fs.file_system_open_file(&longer, FILE_OPEN_MODE), Err(FsError::NotFound));
    assert_eq!(fs.file_system_open_file(b"", FILE_OPEN_CREATE_MODE), Ok(3));
    assert_eq!(fs.num_files(), 2);
}

#[test]
fn full_region_takes_no_more_files() {
    let mut fs = FileSystem::initialize_file_system(Disk::new(8), PARTITION);
    // 6 + 3 * 271 = 819; a record for a name of 190 bytes ends at 1024
    for i in 0..3u8 {
        let mut name = [b'n'; 256];
        name[0] = i;
        let fd = fs.file_system_open_file(&name, FILE_OPEN_CREATE_MODE).unwrap();
        assert_eq!(fs.file_system_close_file(fd), Ok(()));
    }
    assert_eq!(
        fs.file_system_open_file(&[b'x'; 191], FILE_OPEN_CREATE_MODE),
        Err(FsError::CapacityExceeded)
    );
    assert_eq!(fs.num_files(), 3);
    assert_eq!(fs.file_system_open_file(&[b'x'; 190], FILE_OPEN_CREATE_MODE), Ok(2));
    assert_eq!(fs.file_system_open_file(b"", FILE_OPEN_CREATE_MODE), Err(FsError::CapacityExceeded));
    assert_eq!(fs.num_files(), 4);
    // the files are all there after a restart
    let mut fs = FileSystem::initialize_file_system(fs.close_file_system(), PARTITION);
    assert_eq!(fs.num_files(), 4);
    assert_eq!(fs.file_system_open_file(&[b'x'; 190], FILE_OPEN_MODE), Ok(2));
}
