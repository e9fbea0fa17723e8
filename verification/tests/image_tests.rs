use snapocr_shot::image::{crop, Selection, Shot};

fn numbered_shot(width: u32, height: u32) -> Shot {
    let mut pixels = Vec::new();
    for i in 0..(width * height * 4) {
        pixels.push((i % 251) as u8);
    }
    Shot { width, height, pixels }
}

#[test]
fn crop_takes_the_selected_rows() {
    let shot = numbered_shot(4, 3);
    let sel = Selection { output_index: 0, x: 1, y: 1, width: 2, height: 2 };
    let out = crop(&shot, &sel);
    assert_eq!(out.width, 2);
    assert_eq!(out.height, 2);
    // Row 1 starts at byte 16, pixel 1 of it at 20; row 2 at 32, pixel 1 at 36.
    let expected: Vec<u8> = (20..28).chain(36..44).map(|v| v as u8).collect();
    assert_eq!(out.pixels, expected);
}

#[test]
fn crop_of_whole_image_is_the_image() {
    let shot = numbered_shot(3, 2);
    let sel = Selection { output_index: 0, x: 0, y: 0, width: 3, height: 2 };
    let out = crop(&shot, &sel);
    assert_eq!(out.pixels, shot.pixels);
}

#[test]
fn crop_of_a_crop_is_one_crop() {
    let shot = numbered_shot(6, 5);
    let outer = Selection { output_index: 0, x: 1, y: 1, width: 4, height: 3 };
    let inner = Selection { output_index: 0, x: 2, y: 1, width: 2, height: 2 };
    let twice = crop(&crop(&shot, &outer), &inner);
    let once = crop(&shot, &Selection { output_index: 0, x: 3, y: 2, width: 2, height: 2 });
    assert_eq!(twice.pixels, once.pixels);
}

#[test]
fn crop_of_empty_selection_is_empty() {
    let shot = numbered_shot(2, 2);
    let out = crop(&shot, &Selection { output_index: 0, x: 2, y: 0, width: 0, height: 2 });
    assert_eq!(out.width, 0);
    assert!(out.pixels.is_empty());
}
