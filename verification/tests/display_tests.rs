use chip8::display::Display;

#[test]
fn new_display_is_blank_and_dirty() {
    let d = Display::new();
    assert!(d.is_dirty());
    assert!(d.get_frame_buffer().iter().all(|&p| p == 0));
    assert_eq!(d.get_frame_buffer().len(), 64 * 32);
}

#[test]
fn draw_sets_pixels_and_reports_no_collision_on_blank() {
    let mut d = Display::new();
    let collision = d.draw_sprite(8, 4, &[0b1010_0000]);
    assert!(!collision);
    let fb = d.get_frame_buffer();
    assert_eq!(fb[4 * 64 + 8], 1);
    assert_eq!(fb[4 * 64 + 9], 0);
    assert_eq!(fb[4 * 64 + 10], 1);
    assert_eq!(fb[4 * 64 + 11], 0);
}

#[test]
fn draw_wraps_past_the_right_edge() {
    let mut d = Display::new();
    let collision = d.draw_sprite(60, 0, &[0xFF]);
    assert!(!collision);
    let fb = d.get_frame_buffer();
    for col in [60usize, 61, 62, 63, 0, 1, 2, 3] {
        assert_eq!(fb[col], 1, "column {col} should be lit");
    }
    for col in 4..60usize {
        assert_eq!(fb[col], 0, "column {col} should be dark");
    }
}

#[test]
fn draw_wraps_past_the_bottom_edge() {
    let mut d = Display::new();
    let collision = d.draw_sprite(0, 30, &[0x80, 0x80, 0x80, 0x80]);
    assert!(!collision);
    let fb = d.get_frame_buffer();
    assert_eq!(fb[30 * 64], 1);
    assert_eq!(fb[31 * 64], 1);
    assert_eq!(fb[0], 1); // wrapped to the top
    assert_eq!(fb[64], 1);
    assert_eq!(fb[2 * 64], 0);
}

#[test]
fn draw_twice_clears_and_collides() {
    let mut d = Display::new();
    let sprite = [0xF0u8, 0x90, 0x90, 0x90, 0xF0];
    let first = d.draw_sprite(10, 5, &sprite);
    assert!(!first);
    let second = d.draw_sprite(10, 5, &sprite);
    assert!(second); // every pixel the first draw lit collides
    assert!(d.get_frame_buffer().iter().all(|&p| p == 0));
}

#[test]
fn overlap_collides_and_xor_composites() {
    let mut d = Display::new();
    assert!(!d.draw_sprite(0, 0, &[0b1100_0000]));
    let collision = d.draw_sprite(1, 0, &[0b1100_0000]);
    assert!(collision); // the shared column was lit
    let fb = d.get_frame_buffer();
    assert_eq!(fb[0], 1);
    assert_eq!(fb[1], 0); // lit twice: XORed off
    assert_eq!(fb[2], 1);
}

#[test]
fn cls_darkens_everything() {
    let mut d = Display::new();
    d.draw_sprite(3, 3, &[0xFF, 0xFF]);
    d.cls();
    assert!(d.get_frame_buffer().iter().all(|&p| p == 0));
    assert!(d.is_dirty());
}
