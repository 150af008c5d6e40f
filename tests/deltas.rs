use mini_git::delta::{patch, patch_content};
use mini_git::error::GitError;
use mini_git::varint::{read_offset_number, read_size_number};

#[test]
fn patch_copies_and_inserts() {
    let base = b"hello, world";
    // copy offset 7 size 5, insert ", ", copy offset 0 size 5
    let ins = [0x91, 7, 5, 2, b',', b' ', 0x90, 5];
    assert_eq!(patch_content(&ins, 12, base).unwrap(), b"world, hello".to_vec());
}

#[test]
fn patch_fails_on_size_mismatch() {
    let base = b"hello";
    let ins = [0x90, 5];
    assert_eq!(patch_content(&ins, 5, base).unwrap(), b"hello".to_vec());
    assert_eq!(patch_content(&ins, 4, base).unwrap_err(), GitError::SizeMismatch { expected: 4, actual: 5 });
    assert_eq!(patch_content(&ins, 6, base).unwrap_err(), GitError::SizeMismatch { expected: 6, actual: 5 });
}

#[test]
fn patch_fails_on_bad_instructions() {
    let base = b"hello";
    assert_eq!(patch_content(&[0x91, 3, 5], 5, base).unwrap_err(), GitError::Corrupt);
    assert_eq!(patch_content(&[3, b'a'], 3, base).unwrap_err(), GitError::Corrupt);
    assert_eq!(patch_content(&[0], 0, base).unwrap_err(), GitError::Corrupt);
    assert_eq!(patch_content(&[0x91, 1], 1, base).unwrap_err(), GitError::Corrupt);
    assert_eq!(patch_content(&[], 0, base).unwrap(), Vec::<u8>::new());
}

#[test]
fn patch_reads_wide_operands() {
    let base: Vec<u8> = (0..300u32).map(|i| (i % 251) as u8).collect();
    // offset 0x0102 (two bytes), size 0x0010 (first size byte)
    let ins = [0x80 | 0x01 | 0x02 | 0x10, 0x02, 0x01, 0x10];
    assert_eq!(patch_content(&ins, 16, &base).unwrap(), base[0x102..0x112].to_vec());
}

#[test]
fn patch_with_header_checks_sizes() {
    let base = b"abcdef";
    let delta = [6, 4, 0x90, 4];
    assert_eq!(patch(base, &delta).unwrap(), b"abcd".to_vec());
    assert_eq!(patch(base, &[5, 4, 0x90, 4]).unwrap_err(), GitError::SizeMismatch { expected: 5, actual: 6 });
    assert_eq!(patch(base, &[6, 3, 0x90, 4]).unwrap_err(), GitError::SizeMismatch { expected: 3, actual: 4 });
    assert_eq!(patch(base, &[6]).unwrap_err(), GitError::Corrupt);
}

#[test]
fn size_numbers_put_low_groups_first() {
    assert_eq!(read_size_number(&[0x05], 0, 9).unwrap(), (5, 1));
    assert_eq!(read_size_number(&[0xff, 0x01], 0, 9).unwrap(), (255, 2));
    assert_eq!(read_size_number(&[9, 0x80, 0x80, 0x01], 1, 9).unwrap(), (16384, 4));
    assert_eq!(read_size_number(&[0x80], 0, 9).unwrap_err(), GitError::Corrupt);
    assert_eq!(read_size_number(&[0x80, 0x80, 0x01], 0, 2).unwrap_err(), GitError::Corrupt);
}

#[test]
fn offset_numbers_add_one_per_continuation() {
    assert_eq!(read_offset_number(&[0x05], 0).unwrap(), (5, 1));
    assert_eq!(read_offset_number(&[0x81, 0x00], 0).unwrap(), (256, 2));
    assert_eq!(read_offset_number(&[0x80, 0x00], 0).unwrap(), (128, 2));
    assert_eq!(read_offset_number(&[0x80, 0x80, 0x00], 0).unwrap(), (16512, 3));
    assert_eq!(read_offset_number(&[0x80], 0).unwrap_err(), GitError::Corrupt);
}
