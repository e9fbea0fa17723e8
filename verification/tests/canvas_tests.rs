use snapocr_shot::canvas::{draw_text, text_width, Canvas};

#[test]
fn blend_opaque_paints_colour() {
    let mut data = vec![9u8; 2 * 2 * 4];
    let mut c = Canvas { data: &mut data, width: 2, height: 2 };
    c.blend(1, 0, (10, 20, 30), 255);
    assert_eq!(&data[4..8], &[30, 20, 10, 255]);
    assert_eq!(&data[0..4], &[9, 9, 9, 9]);
}

#[test]
fn blend_half_mixes() {
    let mut data = vec![0u8, 100, 200, 0];
    let mut c = Canvas { data: &mut data, width: 1, height: 1 };
    c.blend(0, 0, (255, 255, 255), 128);
    // (255*128 + d*127) / 255 for B, G, R; alpha 128 + 0.
    assert_eq!(data, vec![128, 177, 227, 128]);
}

#[test]
fn blend_outside_or_transparent_does_nothing() {
    let mut data = vec![5u8; 4];
    let mut c = Canvas { data: &mut data, width: 1, height: 1 };
    c.blend(1, 0, (1, 2, 3), 255);
    c.blend(0, -1, (1, 2, 3), 255);
    c.blend(0, 0, (1, 2, 3), 0);
    assert_eq!(data, vec![5, 5, 5, 5]);
}

#[test]
fn text_width_counts_characters() {
    assert_eq!(text_width("1169 x 651", 1), 59);
    assert_eq!(text_width("S", 3), 15);
    assert_eq!(text_width("", 2), -2);
    assert_eq!(text_width("é", 1), 5);
}

fn lit(data: &[u8], w: usize, x: usize, y: usize) -> bool {
    data[(y * w + x) * 4 + 3] != 0
}

#[test]
fn draw_text_renders_glyph_dots() {
    let (w, h) = (12usize, 7usize);
    let mut data = vec![0u8; w * h * 4];
    let mut c = Canvas { data: &mut data, width: w as i32, height: h as i32 };
    draw_text(&mut c, "1E", 0, 0, 1, (255, 255, 255), 255);
    // '1': row 0 is 0b00100 (column 2 lit); row 6 is 0b01110.
    assert!(lit(&data, w, 2, 0));
    assert!(!lit(&data, w, 1, 0));
    assert!(lit(&data, w, 1, 6) && lit(&data, w, 2, 6) && lit(&data, w, 3, 6));
    // 'E' starts 6 columns later: row 0 is 0b11111.
    for x in 6..11 {
        assert!(lit(&data, w, x, 0));
    }
    assert!(!lit(&data, w, 5, 0));
    assert!(!lit(&data, w, 7, 1));
    assert_eq!(&data[(1 * w + 6) * 4..(1 * w + 6) * 4 + 4], &[255, 255, 255, 255]);
}

#[test]
fn draw_text_scales_dots() {
    let (w, h) = (10usize, 14usize);
    let mut data = vec![0u8; w * h * 4];
    let mut c = Canvas { data: &mut data, width: w as i32, height: h as i32 };
    draw_text(&mut c, "x", 0, 0, 2, (0, 0, 0), 255);
    // 'x' row 1 is 0b10001: columns 0 and 4, i.e. pixels 0..2 and 8..10 at scale 2.
    for y in 2..4 {
        assert!(lit(&data, w, 0, y) && lit(&data, w, 1, y));
        assert!(lit(&data, w, 8, y) && lit(&data, w, 9, y));
        assert!(!lit(&data, w, 2, y));
    }
    // Row 0 is empty.
    assert!((0..w).all(|x| !lit(&data, w, x, 0)));
}

#[test]
fn draw_text_skips_unknown_characters() {
    let (w, h) = (12usize, 7usize);
    let mut data = vec![0u8; w * h * 4];
    let mut c = Canvas { data: &mut data, width: w as i32, height: h as i32 };
    draw_text(&mut c, "?1", 0, 0, 1, (255, 255, 255), 255);
    assert!((0..6).all(|x| (0..7).all(|y| !lit(&data, w, x, y))));
    assert!(lit(&data, w, 8, 0));
}

#[test]
fn draw_text_of_concatenation_is_two_draws() {
    let (w, h) = (30usize, 8usize);
    let mut whole = vec![7u8; w * h * 4];
    let mut parts = whole.clone();
    draw_text(&mut Canvas { data: &mut whole, width: 30, height: 8 }, "1?2", 1, 0, 1, (9, 99, 199), 200);
    let mut c = Canvas { data: &mut parts, width: 30, height: 8 };
    draw_text(&mut c, "1?", 1, 0, 1, (9, 99, 199), 200);
    draw_text(&mut c, "2", 1 + 6 * 2, 0, 1, (9, 99, 199), 200);
    assert_eq!(whole, parts);
}

#[test]
fn draw_text_stays_in_its_box() {
    let (w, h) = (40usize, 20usize);
    let mut data = vec![0u8; w * h * 4];
    let mut c = Canvas { data: &mut data, width: 40, height: 20 };
    let width = text_width("8E", 2);
    draw_text(&mut c, "8E", 3, 4, 2, (255, 255, 255), 255);
    for y in 0..h {
        for x in 0..w {
            if lit(&data, w, x, y) {
                assert!(x >= 3 && (x as i32) < 3 + width && y >= 4 && y < 4 + 14);
            }
        }
    }
    let mut untouched = vec![5u8; w * h * 4];
    draw_text(&mut Canvas { data: &mut untouched, width: 40, height: 20 }, "8", 0, 0, 0, (1, 1, 1), 255);
    assert!(untouched.iter().all(|&v| v == 5));
}

#[test]
fn blend_stays_between_old_and_colour() {
    for alpha in [1u8, 77, 128, 254] {
        let mut data = vec![40u8, 200, 120, 90];
        let mut c = Canvas { data: &mut data, width: 1, height: 1 };
        c.blend(0, 0, (10, 250, 120), alpha);
        assert!(data[0] >= 40 && data[0] <= 120);
        assert!(data[1] >= 200 && data[1] <= 250);
        assert!(data[2] >= 10 && data[2] <= 120);
        assert!(data[3] >= 90 && data[3] >= alpha);
    }
}
