use klaptik_cli::frames::{
    delete_sprite_frames, read_register_frame, register_value, render_request_frame,
    upload_sprite_frames, write_register_frames,
};

#[test]
fn read_register_frame_selects_register() {
    assert_eq!(read_register_frame(0x11), vec![0x00, 0x11]);
}

#[test]
fn register_value_is_little_endian() {
    assert_eq!(register_value([0x78, 0x56, 0x34, 0x12]), 0x1234_5678);
    assert_eq!(register_value([0xFF, 0xFF, 0xFF, 0xFF]), u32::MAX);
    assert_eq!(register_value([0, 0, 0, 0]), 0);
}

#[test]
fn write_register_sends_two_frames() {
    let frames = write_register_frames(0x07, 0x1234_5678);
    assert_eq!(frames, vec![vec![0x80, 0x07], vec![0x78, 0x56, 0x34, 0x12]]);
}

#[test]
fn write_then_read_register_round_trips() {
    for v in [0u32, 1, 0xFF, 0x100, 0xDEAD_BEEF, u32::MAX] {
        let frames = write_register_frames(3, v);
        let bytes = [frames[1][0], frames[1][1], frames[1][2], frames[1][3]];
        assert_eq!(register_value(bytes), v);
    }
}

#[test]
fn delete_sprite_sends_tag() {
    let frames = delete_sprite_frames(9);
    assert_eq!(frames, vec![vec![0x82, 9], vec![9, b'd', b'e', b'l']]);
}

#[test]
fn upload_sprite_header_and_chunks() {
    let bitmap: Vec<u8> = (0..600u32).map(|i| (i % 251) as u8).collect();
    let frames = upload_sprite_frames(4, 8, 8, &bitmap).unwrap();
    assert_eq!(frames.len(), 5);
    assert_eq!(frames[0], vec![0x81, 4]);
    assert_eq!(frames[1], vec![4, 8, 8, 75]);
    assert_eq!(frames[2].len(), 255);
    assert_eq!(frames[3].len(), 255);
    assert_eq!(frames[4].len(), 90);
    let joined: Vec<u8> = frames[2..].concat();
    assert_eq!(joined, bitmap);
}

#[test]
fn upload_sprite_glyph_count_truncates() {
    // 6x4 glyphs take 3 bytes each: 100 bytes hold 33 glyphs.
    let frames = upload_sprite_frames(1, 6, 4, &[0xAA; 100]).unwrap();
    assert_eq!(frames[1], vec![1, 6, 4, 33]);
    // 4x4 glyphs take 2 bytes: 600 bytes hold 300 glyphs, sent as its low byte.
    let frames = upload_sprite_frames(1, 4, 4, &[0x55; 600]).unwrap();
    assert_eq!(frames[1], vec![1, 4, 4, 44]);
}

#[test]
fn upload_sprite_exact_chunk_and_empty_bitmap() {
    let frames = upload_sprite_frames(2, 8, 16, &[7; 255]).unwrap();
    assert_eq!(frames.len(), 3);
    assert_eq!(frames[2], vec![7; 255]);
    let frames = upload_sprite_frames(2, 8, 16, &[]).unwrap();
    assert_eq!(frames, vec![vec![0x81, 2], vec![2, 8, 16, 0]]);
}

#[test]
fn upload_sprite_rejects_glyphs_under_a_byte() {
    assert!(upload_sprite_frames(1, 1, 1, &[1, 2, 3]).is_none());
    assert!(upload_sprite_frames(1, 0, 8, &[1, 2, 3]).is_none());
    assert!(upload_sprite_frames(1, 7, 1, &[1, 2, 3]).is_none());
}

#[test]
fn render_request_layout() {
    assert_eq!(render_request_frame(10, 20, 3, 7), vec![10, 20, 3, 7]);
    assert_eq!(render_request_frame(0, 255, 1, 2), vec![0, 255, 1, 2]);
}
