use fileorg::memfile::{IoError, MemFile, SeekFrom};
use fileorg::serialize::SerializeError;
use fileorg::text::{read_name, write_name};

#[test]
fn new_file_is_empty() {
    let f = MemFile::new();
    assert_eq!(f.len(), 0);
    assert_eq!(f.position(), 0);
    assert!(f.as_bytes().is_empty());
}

#[test]
fn write_u32_is_big_endian() {
    let mut f = MemFile::new();
    f.write_u32(0x0102_0304);
    assert_eq!(f.as_bytes(), &vec![1u8, 2, 3, 4]);
    assert_eq!(f.position(), 4);
}

#[test]
fn write_u64_and_i64_are_big_endian() {
    let mut f = MemFile::new();
    f.write_u64(0x0102_0304_0506_0708);
    f.write_i64(-1);
    assert_eq!(
        f.into_bytes(),
        vec![1u8, 2, 3, 4, 5, 6, 7, 8, 255, 255, 255, 255, 255, 255, 255, 255]
    );
}

#[test]
fn integers_read_back_as_written() {
    let mut f = MemFile::new();
    f.write_u32(4_000_000_000);
    f.write_u64(u64::MAX - 5);
    f.write_i64(i64::MIN + 7);
    f.seek(SeekFrom::Start(0)).unwrap();
    assert_eq!(f.read_u32(), Ok(4_000_000_000));
    assert_eq!(f.read_u64(), Ok(u64::MAX - 5));
    assert_eq!(f.read_i64(), Ok(i64::MIN + 7));
    assert_eq!(f.read_u32(), Err(IoError::UnexpectedEof));
}

#[test]
fn short_read_moves_cursor_to_end() {
    let mut f = MemFile::from_bytes(vec![9, 8, 7]);
    assert_eq!(f.read_exact(2), Ok(vec![9, 8]));
    assert_eq!(f.read_exact(5), Err(IoError::UnexpectedEof));
    assert_eq!(f.position(), 3);
    assert_eq!(f.read_u32(), Err(IoError::UnexpectedEof));
    assert_eq!(f.position(), 3);
}

#[test]
fn seek_from_each_origin() {
    let mut f = MemFile::from_bytes(vec![0; 10]);
    assert_eq!(f.seek(SeekFrom::Start(4)), Ok(4));
    assert_eq!(f.seek(SeekFrom::Current(3)), Ok(7));
    assert_eq!(f.seek(SeekFrom::Current(-7)), Ok(0));
    assert_eq!(f.seek(SeekFrom::End(-2)), Ok(8));
    assert_eq!(f.seek(SeekFrom::End(5)), Ok(15));
    assert_eq!(f.len(), 10);
}

#[test]
fn seek_before_start_is_refused() {
    let mut f = MemFile::from_bytes(vec![0; 10]);
    f.seek(SeekFrom::Start(3)).unwrap();
    assert_eq!(f.seek(SeekFrom::Current(-4)), Err(IoError::InvalidInput));
    assert_eq!(f.position(), 3);
    assert_eq!(f.seek(SeekFrom::End(-11)), Err(IoError::InvalidInput));
    assert_eq!(f.seek(SeekFrom::Start(u64::MAX)), Err(IoError::InvalidInput));
    assert_eq!(f.position(), 3);
}

#[test]
fn write_past_end_fills_gap_with_zeros() {
    let mut f = MemFile::from_bytes(vec![1, 2]);
    f.seek(SeekFrom::Start(5)).unwrap();
    f.write_all(&[7, 7]);
    assert_eq!(f.as_bytes(), &vec![1u8, 2, 0, 0, 0, 7, 7]);
    assert_eq!(f.position(), 7);
}

#[test]
fn write_in_the_middle_overwrites() {
    let mut f = MemFile::from_bytes(vec![1, 2, 3, 4, 5]);
    f.seek(SeekFrom::Start(1)).unwrap();
    f.write_all(&[9, 9, 9, 9, 9]);
    assert_eq!(f.as_bytes(), &vec![1u8, 9, 9, 9, 9, 9]);
}

#[test]
fn reopen_starts_at_the_beginning() {
    let mut f = MemFile::new();
    f.write_u32(77);
    let mut g = f.reopen();
    assert_eq!(g.position(), 0);
    assert_eq!(g.read_u32(), Ok(77));
    assert_eq!(f.position(), 4);
}

#[test]
fn name_is_padded_and_read_back() {
    let mut f = MemFile::new();
    write_name(&mut f, &"Ana".to_string(), 6);
    assert_eq!(f.as_bytes(), &vec![b'A', b'n', b'a', 0, 0, 0]);
    f.seek(SeekFrom::Start(0)).unwrap();
    assert_eq!(read_name(&mut f, 6), Ok("Ana".to_string()));
    assert_eq!(f.position(), 6);
}

#[test]
fn long_name_is_cut_to_width() {
    let mut f = MemFile::new();
    write_name(&mut f, &"abcdefgh".to_string(), 4);
    assert_eq!(f.as_bytes(), &vec![b'a', b'b', b'c', b'd']);
    f.seek(SeekFrom::Start(0)).unwrap();
    assert_eq!(read_name(&mut f, 4), Ok("abcd".to_string()));
}

#[test]
fn name_with_invalid_utf8_is_refused() {
    let mut f = MemFile::from_bytes(vec![0xff, 0xfe, 0, 0]);
    assert_eq!(read_name(&mut f, 4), Err(SerializeError::Utf8));
    assert_eq!(f.position(), 4);
}

#[test]
fn name_field_past_end_is_eof() {
    let mut f = MemFile::from_bytes(vec![b'x', b'y']);
    assert_eq!(read_name(&mut f, 4), Err(SerializeError::Io(IoError::UnexpectedEof)));
    assert_eq!(f.position(), 2);
}
