use klaptik_cli::bitmap::{pack, LIT_THRESHOLD};

#[test]
fn pack_output_length_is_width_times_groups() {
    let raw = vec![0u8; 5 * 16];
    assert_eq!(pack(&raw, 5, 16).unwrap().len(), 10);
}

#[test]
fn pack_drops_partial_row_group() {
    let raw = vec![255u8; 3 * 12];
    let out = pack(&raw, 3, 12).unwrap();
    assert_eq!(out, vec![0xFF, 0xFF, 0xFF]);
}

#[test]
fn pack_all_black_is_zero() {
    let raw = vec![0u8; 4 * 16];
    let out = pack(&raw, 4, 16).unwrap();
    assert_eq!(out.len(), 8);
    assert!(out.iter().all(|b| *b == 0x00));
}

#[test]
fn pack_all_white_is_ones() {
    let raw = vec![255u8; 4 * 16];
    let out = pack(&raw, 4, 16).unwrap();
    assert_eq!(out.len(), 8);
    assert!(out.iter().all(|b| *b == 0xFF));
}

#[test]
fn pack_bit_follows_row_and_byte_follows_column() {
    // 2 columns, 16 rows: column 0 lit on rows 0, 3 and 9; column 1 on rows 7 and 15.
    let w = 2usize;
    let mut raw = vec![0u8; w * 16];
    raw[0 + 0 * w] = 200;
    raw[0 + 3 * w] = 200;
    raw[0 + 9 * w] = 200;
    raw[1 + 7 * w] = 200;
    raw[1 + 15 * w] = 200;
    let out = pack(&raw, w, 16).unwrap();
    assert_eq!(out, vec![0b0000_1001, 0b1000_0000, 0b0000_0010, 0b1000_0000]);
}

#[test]
fn pack_threshold_edge() {
    let w = 1usize;
    let mut raw = vec![0u8; 8];
    raw[0] = LIT_THRESHOLD - 1;
    raw[1] = LIT_THRESHOLD;
    raw[2] = LIT_THRESHOLD + 1;
    assert_eq!(pack(&raw, w, 8).unwrap(), vec![0b0000_0110]);
}

#[test]
fn pack_empty_image_gives_empty_output() {
    assert_eq!(pack(&[], 0, 16).unwrap(), Vec::<u8>::new());
    assert_eq!(pack(&[1, 2, 3], 3, 0).unwrap(), Vec::<u8>::new());
    assert_eq!(pack(&[255; 21], 3, 7).unwrap(), Vec::<u8>::new());
}

#[test]
fn pack_rejects_short_buffer() {
    let raw = vec![0u8; 4 * 8 - 1];
    assert!(pack(&raw, 4, 8).is_none());
    assert!(pack(&[], usize::MAX, 2).is_none());
}
