use snapocr_shot::image::Selection;
use snapocr_shot::selection::{
    clamp_selection, configured_logical_size, SelectionTracker, BTN_LEFT, MIN_SELECTION,
};

#[test]
fn drag_follows_the_pointer() {
    let mut t: SelectionTracker<(i32, i32)> = SelectionTracker::new();
    t.on_enter(1);
    assert_eq!(t.active(), Some(1));
    assert!(!t.on_motion(1, (5, 5)));
    t.on_press(1, BTN_LEFT, (10, 20));
    assert_eq!(t.drag(), Some((1, (10, 20), (10, 20))));
    assert!(t.on_motion(1, (30, 40)));
    assert_eq!(t.drag(), Some((1, (10, 20), (30, 40))));
    assert!(!t.on_motion(0, (99, 99)));
    assert!(t.on_release(BTN_LEFT, (50, 60)));
    assert_eq!(t.drag(), Some((1, (10, 20), (50, 60))));
    assert!(!t.exit());
    let sel = Selection { output_index: 1, x: 10, y: 20, width: 40, height: 40 };
    t.finish(Some(sel));
    assert!(t.exit());
    assert_eq!(t.result(), Some(sel));
}

#[test]
fn other_buttons_are_ignored() {
    let mut t: SelectionTracker<(i32, i32)> = SelectionTracker::new();
    t.on_press(0, 0x111, (1, 1));
    assert_eq!(t.drag(), None);
    assert!(!t.on_release(BTN_LEFT, (2, 2)));
    t.on_press(0, BTN_LEFT, (1, 1));
    assert!(!t.on_release(0x111, (2, 2)));
    assert_eq!(t.drag(), Some((0, (1, 1), (1, 1))));
}

#[test]
fn leaving_during_drag_keeps_screen() {
    let mut t: SelectionTracker<(i32, i32)> = SelectionTracker::new();
    t.on_enter(0);
    t.on_leave(0);
    assert_eq!(t.active(), None);
    t.on_enter(0);
    t.on_press(0, BTN_LEFT, (1, 1));
    t.on_leave(0);
    assert_eq!(t.active(), Some(0));
    t.on_leave(3);
    assert_eq!(t.active(), Some(0));
}

#[test]
fn escape_cancels() {
    let mut t: SelectionTracker<(i32, i32)> = SelectionTracker::new();
    t.on_press(0, BTN_LEFT, (1, 1));
    t.finish(Some(Selection { output_index: 0, x: 0, y: 0, width: 5, height: 5 }));
    t.on_escape();
    assert!(t.exit());
    assert_eq!(t.result(), None);
}

#[test]
fn small_drags_are_not_selections() {
    assert_eq!(clamp_selection(0, 10, 10, 2, 50, 100, 100), None);
    assert_eq!(clamp_selection(0, 10, 10, 50, (MIN_SELECTION - 1) as i64, 100, 100), None);
    assert_eq!(
        clamp_selection(0, 10, 10, 3, 3, 100, 100),
        Some(Selection { output_index: 0, x: 10, y: 10, width: 3, height: 3 })
    );
}

#[test]
fn selections_are_cut_at_screen_edges() {
    // Dragged from x = -5 to 45: the part on the screen is [0, 45).
    assert_eq!(
        clamp_selection(2, -5, 90, 50, 50, 100, 100),
        Some(Selection { output_index: 2, x: 0, y: 90, width: 45, height: 10 })
    );
    assert_eq!(
        clamp_selection(0, 90, 0, 50, 10, 100, 100),
        Some(Selection { output_index: 0, x: 90, y: 0, width: 10, height: 10 })
    );
}

#[test]
fn slivers_left_on_screen_are_not_selections() {
    // A 10-pixel drag from x = 99 leaves 1 pixel on a 100-pixel screen.
    assert_eq!(clamp_selection(0, 99, 0, 10, 10, 100, 100), None);
    // A drag entirely past the right edge leaves nothing.
    assert_eq!(clamp_selection(0, 150, 0, 10, 10, 100, 100), None);
    assert_eq!(clamp_selection(0, 0, 98, 10, 10, 100, 100), None);
    assert_eq!(
        clamp_selection(0, 97, 97, 10, 10, 100, 100),
        Some(Selection { output_index: 0, x: 97, y: 97, width: 3, height: 3 })
    );
}

#[test]
fn too_small_drag_keeps_earlier_result() {
    let mut t: SelectionTracker<(i32, i32)> = SelectionTracker::new();
    let sel = Selection { output_index: 0, x: 1, y: 1, width: 5, height: 5 };
    t.finish(Some(sel));
    t.finish(None);
    assert!(t.exit());
    assert_eq!(t.result(), Some(sel));
}

#[test]
fn configure_keeps_size_on_zero() {
    assert_eq!(configured_logical_size((0, 0), (1920, 1080)), (1920, 1080));
    assert_eq!(configured_logical_size((1920, 1080), (0, 1080)), (1920, 1080));
    assert_eq!(configured_logical_size((1920, 1080), (2560, 0)), (1920, 1080));
}

#[test]
fn closing_ends_without_selection() {
    let mut t: SelectionTracker<(i32, i32)> = SelectionTracker::new();
    t.on_press(0, BTN_LEFT, (1, 1));
    assert_eq!(t.result(), None);
    t.on_closed();
    assert!(t.exit());
    assert_eq!(t.result(), None);
}
