use snapocr_shot::pixel_format::{to_rgba, PixelFormat};
use snapocr_shot::image::Shot;
use snapocr_shot::render::{build_render_buffers, compose_overlay_frame, draw_border, BORDER_BGR, DIM_KEEP};

#[test]
fn render_buffers_are_bgrx_and_dimmed() {
    let shot = Shot { width: 2, height: 1, pixels: vec![255, 100, 0, 7, 10, 20, 30, 40] };
    let (bright, dim) = build_render_buffers(&shot);
    assert_eq!(bright, vec![0, 100, 255, 255, 30, 20, 10, 255]);
    let d = |v: u32| (v * DIM_KEEP / 255) as u8;
    assert_eq!(dim, vec![d(0), d(100), d(255), 255, d(30), d(20), d(10), 255]);
    assert_eq!(d(255), 140);
    assert_eq!(d(100), 54);
}

#[test]
fn dim_never_brighter_than_bright() {
    let mut pixels = Vec::new();
    for v in 0..=255u32 {
        pixels.extend_from_slice(&[v as u8, (255 - v) as u8, (v / 2) as u8, 0]);
    }
    let shot = Shot { width: 256, height: 1, pixels };
    let (bright, dim) = build_render_buffers(&shot);
    for (b, d) in bright.iter().zip(dim.iter()) {
        assert!(d <= b);
    }
}

fn pixel(buf: &[u8], w: usize, x: usize, y: usize) -> [u8; 4] {
    let i = (y * w + x) * 4;
    [buf[i], buf[i + 1], buf[i + 2], buf[i + 3]]
}

#[test]
fn border_paints_two_pixel_outline() {
    let (w, h) = (8usize, 8usize);
    let mut canvas = vec![1u8; w * h * 4 + 4];
    draw_border(&mut canvas, 8, 8, 1, 1, 7, 7);
    let b = [BORDER_BGR[0], BORDER_BGR[1], BORDER_BGR[2], 1];
    assert_eq!(pixel(&canvas, w, 1, 1), b);
    assert_eq!(pixel(&canvas, w, 2, 2), b);
    assert_eq!(pixel(&canvas, w, 5, 5), b);
    assert_eq!(pixel(&canvas, w, 6, 3), b);
    assert_eq!(pixel(&canvas, w, 3, 3), [1, 1, 1, 1]);
    assert_eq!(pixel(&canvas, w, 0, 0), [1, 1, 1, 1]);
    assert_eq!(pixel(&canvas, w, 7, 7), [1, 1, 1, 1]);
    // Bytes past the image stay untouched.
    assert_eq!(&canvas[w * h * 4..], &[1, 1, 1, 1]);
}

#[test]
fn border_clips_to_canvas() {
    let mut canvas = vec![0u8; 4 * 4 * 4];
    draw_border(&mut canvas, 4, 4, -3, -3, 2, 2);
    // Only the bottom and right bands fall on the canvas.
    assert_eq!(pixel(&canvas, 4, 0, 1), [BORDER_BGR[0], BORDER_BGR[1], BORDER_BGR[2], 0]);
    assert_eq!(pixel(&canvas, 4, 1, 0), [BORDER_BGR[0], BORDER_BGR[1], BORDER_BGR[2], 0]);
    assert_eq!(pixel(&canvas, 4, 2, 2), [0, 0, 0, 0]);
}

#[test]
fn overlay_frame_restores_selection() {
    let (w, h) = (10usize, 10usize);
    let bright = vec![200u8; w * h * 4];
    let dim = vec![50u8; w * h * 4];
    let mut canvas = vec![0u8; w * h * 4];
    compose_overlay_frame(&mut canvas, &bright, &dim, 10, 10, Some((2, 2, 6, 6)));
    let border = [BORDER_BGR[0], BORDER_BGR[1], BORDER_BGR[2], 200];
    assert_eq!(pixel(&canvas, w, 0, 0), [50; 4]);
    assert_eq!(pixel(&canvas, w, 2, 2), border);
    assert_eq!(pixel(&canvas, w, 3, 5), border);
    assert_eq!(pixel(&canvas, w, 5, 5), [200; 4]);
    assert_eq!(pixel(&canvas, w, 8, 8), [50; 4]);
}

#[test]
fn overlay_frame_without_selection_is_dim() {
    let bright = vec![200u8; 16];
    let dim = vec![50u8; 16];
    let mut canvas = vec![0u8; 20];
    compose_overlay_frame(&mut canvas, &bright, &dim, 2, 2, None);
    assert_eq!(&canvas[..16], &[50u8; 16][..]);
    assert_eq!(&canvas[16..], &[0u8; 4][..]);
    compose_overlay_frame(&mut canvas, &bright, &dim, 2, 2, Some((0, 0, 0, 2)));
    assert_eq!(&canvas[..16], &[50u8; 16][..]);
}

#[test]
fn overlay_frame_clamps_selection() {
    let (w, h) = (6usize, 6usize);
    let bright = vec![200u8; w * h * 4];
    let dim = vec![50u8; w * h * 4];
    let mut canvas = vec![0u8; w * h * 4];
    compose_overlay_frame(&mut canvas, &bright, &dim, 6, 6, Some((-10, -10, 100, 100)));
    let border = [BORDER_BGR[0], BORDER_BGR[1], BORDER_BGR[2], 200];
    assert_eq!(pixel(&canvas, w, 0, 0), border);
    assert_eq!(pixel(&canvas, w, 5, 5), border);
    assert_eq!(pixel(&canvas, w, 3, 3), [200; 4]);
}

#[test]
fn bright_buffer_decodes_back_to_the_screen() {
    let shot = Shot { width: 2, height: 2, pixels: (0..16).map(|v| v * 10 + 3).collect() };
    let (bright, _) = build_render_buffers(&shot);
    let back = to_rgba(&bright, 2, 2, PixelFormat::Xrgb8888).unwrap();
    let expected: Vec<u8> = shot
        .pixels
        .iter()
        .enumerate()
        .map(|(i, v)| if i % 4 == 3 { 255 } else { *v })
        .collect();
    assert_eq!(back, expected);
}

#[test]
fn border_twice_is_border_once() {
    let mut once = vec![3u8; 6 * 6 * 4];
    draw_border(&mut once, 6, 6, 1, 0, 6, 4);
    let mut twice = once.clone();
    draw_border(&mut twice, 6, 6, 1, 0, 6, 4);
    assert_eq!(once, twice);
}

#[test]
fn border_accepts_far_coordinates() {
    let mut canvas = vec![0u8; 4 * 4 * 4];
    draw_border(&mut canvas, 4, 4, i64::MAX - 1, 0, i64::MAX - 1, 0);
    assert!(canvas.iter().all(|&v| v == 0));
}

#[test]
fn dim_is_monotone_and_bounded() {
    let pixels: Vec<u8> = (0..=255u32).flat_map(|v| [v as u8, v as u8, v as u8, 0]).collect();
    let shot = Shot { width: 256, height: 1, pixels };
    let (_, dim) = build_render_buffers(&shot);
    for i in 0..255usize {
        assert!(dim[i * 4] <= dim[(i + 1) * 4]);
        assert!(dim[i * 4] <= DIM_KEEP as u8);
    }
}

#[test]
fn border_on_a_negative_size_changes_nothing() {
    let mut canvas = vec![4u8; 16];
    draw_border(&mut canvas, -2, 2, 0, 0, 2, 2);
    draw_border(&mut canvas, 2, -1, 0, 0, 2, 2);
    assert!(canvas.iter().all(|&v| v == 4));
}

#[test]
fn overlay_frame_ignores_empty_selection_far_away() {
    let bright = vec![200u8; 16];
    let dim = vec![50u8; 16];
    let mut canvas = vec![0u8; 16];
    compose_overlay_frame(&mut canvas, &bright, &dim, 2, 2, Some((i64::MAX, i64::MAX, 0, 5)));
    assert_eq!(canvas, dim);
}
