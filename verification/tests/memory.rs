use wasi_experimental_http_wasmer::memory::{
    can_write, slice_from_memory, string_from_memory, write_bytes, write_u16, write_u32,
};
use wasi_experimental_http_wasmer::HttpError;

#[test]
fn slices_within_the_memory() {
    let memory = [1u8, 2, 3, 4];
    assert_eq!(slice_from_memory(&memory, 1, 2), Ok(vec![2, 3]));
    assert_eq!(slice_from_memory(&memory, 0, 4), Ok(vec![1, 2, 3, 4]));
    assert_eq!(slice_from_memory(&memory, 4, 0), Ok(vec![]));
}

#[test]
fn slices_beyond_the_memory() {
    let memory = [1u8, 2, 3, 4];
    assert_eq!(slice_from_memory(&memory, 1, 4), Err(HttpError::BufferTooSmall));
    assert_eq!(slice_from_memory(&memory, 5, 0), Err(HttpError::BufferTooSmall));
    assert_eq!(slice_from_memory(&memory, u32::MAX, 1), Err(HttpError::BufferTooSmall));
}

#[test]
fn strings_from_the_memory() {
    let memory = "a\u{e9}z".as_bytes();
    assert_eq!(string_from_memory(memory, 0, 4), Ok("a\u{e9}z".to_string()));
    assert_eq!(string_from_memory(memory, 0, 2), Err(HttpError::Utf8Error));
    assert_eq!(string_from_memory(memory, 0, 5), Err(HttpError::BufferTooSmall));
}

#[test]
fn read_gives_back_write() {
    let mut memory = [9u8; 6];
    write_bytes(&mut memory, 2, &[1, 2, 3]);
    assert_eq!(memory, [9, 9, 1, 2, 3, 9]);
    assert_eq!(slice_from_memory(&memory, 2, 3), Ok(vec![1, 2, 3]));
    assert_eq!(slice_from_memory(&memory, 0, 2), Ok(vec![9, 9]));
}

#[test]
fn empty_write_is_possible_anywhere() {
    let mut memory = [9u8; 2];
    assert!(can_write(&memory, 100, 0));
    assert!(can_write(&memory, 0, 2));
    assert!(!can_write(&memory, 1, 2));
    assert!(!can_write(&memory, 3, 1));
    write_bytes(&mut memory, 100, &[]);
    assert_eq!(memory, [9, 9]);
}

#[test]
fn numbers_are_little_endian() {
    let mut memory = [0u8; 6];
    write_u32(&mut memory, 0, 0x0a0b0c0d);
    write_u16(&mut memory, 4, 404);
    assert_eq!(memory, [0x0d, 0x0c, 0x0b, 0x0a, 0x94, 0x01]);
    assert_eq!(memory[..4], 0x0a0b0c0du32.to_le_bytes());
    assert_eq!(memory[4..], 404u16.to_le_bytes());
}
