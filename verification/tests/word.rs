use lebuf::word::{read_word, word_bytes, write_word, SENTINEL};
use lebuf::Error;

#[test]
fn word_is_as_wide_as_usize() {
    assert_eq!(word_bytes(), std::mem::size_of::<usize>());
}

#[test]
fn sentinel_is_the_largest_offset() {
    assert_eq!(SENTINEL, usize::MAX);
}

#[test]
fn word_is_written_least_significant_byte_first() {
    let width = word_bytes();
    let mut slot = vec![0xAA; 16];

    write_word(&mut slot, 0x0102);

    assert_eq!(slot[0], 0x02);
    assert_eq!(slot[1], 0x01);
    assert!(slot[2..width].iter().all(|byte| *byte == 0x00));
    assert!(slot[width..].iter().all(|byte| *byte == 0xAA));
    assert_eq!(&slot[..width], &0x0102usize.to_le_bytes());
}

#[test]
fn word_is_read_least_significant_byte_first() {
    let width = word_bytes();
    let mut slot = vec![0x00; width + 3];
    slot[0] = 0x18;
    slot[1] = 0x01;
    slot[width] = 0xFF;

    assert_eq!(read_word(&slot), 0x0118);
}

#[test]
fn word_round_trip() {
    let mut slot = vec![0x55; 8];
    for offset in [0, 1, 255, 256, 0x1234_5678, usize::MAX - 1, usize::MAX] {
        write_word(&mut slot, offset);
        assert_eq!(read_word(&slot), offset);
    }
}

#[test]
fn sentinel_fills_the_word() {
    let width = word_bytes();
    let mut slot = vec![0x00; width];
    write_word(&mut slot, SENTINEL);
    assert!(slot.iter().all(|byte| *byte == 0xFF));
}

#[test]
fn error_names_itself() {
    assert_eq!(Error::WriteZero.to_string(), "WriteZero");
    assert_eq!(Error::WriteZero, Error::WriteZero);
}
