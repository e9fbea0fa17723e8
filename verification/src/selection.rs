//! The decisions of the selection overlay: following the pointer across the
//! screens' overlays, and turning the dragged rectangle into a selection.
//!
//! Coordinates come in two systems: logical ones (the compositor's configure
//! sizes and pointer positions, in points) and physical pixels (the frozen
//! images, and every selection handed out). The tracker only stores pointer
//! positions, of whatever type the caller uses for them; turning them into
//! physical pixels is the caller's.
use vstd::prelude::*;
use crate::image::Selection;

verus! {

/// A rectangle smaller than this (physical pixels) in either direction is a
/// stray click, not a selection.
pub const MIN_SELECTION: u32 = 3;

/// The Linux input code of the left mouse button.
pub const BTN_LEFT: u32 = 0x110;

/// The pointer state of the overlays, as a value.
pub struct TrackerView<P> {
    /// The overlay (screen index) the pointer is on, if any.
    pub active: Option<usize>,
    /// Where the left button went down, if a drag is under way.
    pub press: Option<P>,
    /// The latest pointer position of the drag.
    pub current: Option<P>,
    /// The finished selection, if any.
    pub result: Option<Selection>,
    /// The interaction is over (finished or cancelled).
    pub exit: bool,
}

/// The pointer state of the overlays: which screen the pointer is on, the
/// drag under way, and how the interaction ended. While a drag is under way
/// there is always an active screen and a current position.
pub struct SelectionTracker<P: Copy> {
    active: Option<usize>,
    press: Option<P>,
    current: Option<P>,
    result: Option<Selection>,
    exit: bool,
}

impl<P: Copy> View for SelectionTracker<P> {
    type V = TrackerView<P>;

    closed spec fn view(&self) -> TrackerView<P> {
        TrackerView {
            active: self.active,
            press: self.press,
            current: self.current,
            result: self.result,
            exit: self.exit,
        }
    }
}

/// While a drag is under way there is an active screen and a current position.
/// Every event handler keeps it: no sequence of pointer and keyboard events
/// leaves a drag without an active screen or a current position.
pub open spec fn tracker_wf<P>(v: TrackerView<P>) -> bool {
    &&& v.press is Some ==> v.active is Some && v.current is Some
    &&& v.result is Some ==> v.exit
}

impl<P: Copy> SelectionTracker<P> {
    #[verifier::type_invariant]
    spec fn inv(self) -> bool {
        &&& self.press is Some ==> self.active is Some && self.current is Some
        &&& self.result is Some ==> self.exit
    }

    /// No screen, no drag, no result.
    pub fn new() -> (s: Self)
        ensures
            s@.active is None,
            s@.press is None,
            s@.current is None,
            s@.result is None,
            !s@.exit,
            tracker_wf(s@),
    {
        SelectionTracker { active: None, press: None, current: None, result: None, exit: false }
    }

    /// The overlay the pointer is on.
    pub fn active(&self) -> (r: Option<usize>)
        ensures
            r == self@.active,
    {
        self.active
    }

    /// The finished selection, if any.
    pub fn result(&self) -> (r: Option<Selection>)
        ensures
            r == self@.result,
    {
        self.result
    }

    /// Whether the interaction is over.
    pub fn exit(&self) -> (r: bool)
        ensures
            r == self@.exit,
    {
        self.exit
    }

    /// The drag under way: the active screen, the press position and the
    /// current position. `Some` exactly while the left button is held.
    pub fn drag(&self) -> (r: Option<(usize, P, P)>)
        ensures
            r is Some <==> self@.press is Some,
            r matches Some((i, p, c)) ==> self@.active == Some(i) && self@.press == Some(p)
                && self@.current == Some(c),
    {
        proof {
            use_type_invariant(self);
        }
        match (self.active, self.press, self.current) {
            (Some(i), Some(p), Some(c)) => Some((i, p, c)),
            _ => None,
        }
    }

    /// The pointer entered the overlay of screen `index`: it becomes active,
    /// even during a drag.
    pub fn on_enter(&mut self, index: usize)
        ensures
            tracker_wf(final(self)@),
            final(self)@ == (TrackerView { active: Some(index), ..old(self)@ }),
    {
        proof {
            use_type_invariant(&*self);
        }
        self.active = Some(index);
    }

    /// The pointer left the overlay of screen `index`. Outside a drag the
    /// active screen is forgotten if it was that one; a drag that leaves the
    /// screen keeps its selection.
    pub fn on_leave(&mut self, index: usize)
        ensures
            tracker_wf(final(self)@),
            old(self)@.press is None && old(self)@.active == Some(index) ==> final(self)@ == (
            TrackerView { active: None, ..old(self)@ }),
            !(old(self)@.press is None && old(self)@.active == Some(index)) ==> final(self)@
                == old(self)@,
    {
        proof {
            use_type_invariant(&*self);
        }
        if self.press.is_none() {
            if let Some(a) = self.active {
                if a == index {
                    self.active = None;
                }
            }
        }
    }

    /// The pointer moved to `pos` on the overlay of screen `index`. During a
    /// drag on that screen the current position follows it, and the result
    /// is `true`: the screen must be redrawn. Otherwise nothing changes.
    pub fn on_motion(&mut self, index: usize, pos: P) -> (redraw: bool)
        ensures
            tracker_wf(final(self)@),
            redraw == (old(self)@.press is Some && old(self)@.active == Some(index)),
            redraw ==> final(self)@ == (TrackerView { current: Some(pos), ..old(self)@ }),
            !redraw ==> final(self)@ == old(self)@,
    {
        proof {
            use_type_invariant(&*self);
        }
        if self.press.is_some() {
            if let Some(a) = self.active {
                if a == index {
                    self.current = Some(pos);
                    return true;
                }
            }
        }
        false
    }

    /// A button went down at `pos` on the overlay of screen `index`. The left
    /// button starts a drag there; other buttons change nothing.
    pub fn on_press(&mut self, index: usize, button: u32, pos: P)
        ensures
            tracker_wf(final(self)@),
            button == BTN_LEFT ==> final(self)@ == (TrackerView {
                active: Some(index),
                press: Some(pos),
                current: Some(pos),
                ..old(self)@
            }),
            button != BTN_LEFT ==> final(self)@ == old(self)@,
    {
        proof {
            use_type_invariant(&*self);
        }
        if button == BTN_LEFT {
            self.current = Some(pos);
            self.active = Some(index);
            self.press = Some(pos);
        }
    }

    /// A button went up at `pos`. The left button ends a drag under way: the
    /// current position becomes `pos` and the result is `true`, and the
    /// caller then turns the drag into a selection and calls `finish`.
    /// Otherwise nothing changes.
    pub fn on_release(&mut self, button: u32, pos: P) -> (ends_drag: bool)
        ensures
            tracker_wf(final(self)@),
            ends_drag == (button == BTN_LEFT && old(self)@.press is Some),
            ends_drag ==> final(self)@ == (TrackerView { current: Some(pos), ..old(self)@ }),
            !ends_drag ==> final(self)@ == old(self)@,
    {
        proof {
            use_type_invariant(&*self);
        }
        if button == BTN_LEFT && self.press.is_some() {
            self.current = Some(pos);
            true
        } else {
            false
        }
    }

    /// Ends the interaction. A selection (`Some`) becomes the result; `None`
    /// (the drag was too small) leaves the result as it was.
    pub fn finish(&mut self, result: Option<Selection>)
        ensures
            tracker_wf(final(self)@),
            result is Some ==> final(self)@ == (TrackerView { result: result, exit: true, ..old(self)@ }),
            result is None ==> final(self)@ == (TrackerView { exit: true, ..old(self)@ }),
    {
        proof {
            use_type_invariant(&*self);
        }
        self.exit = true;
        if result.is_some() {
            self.result = result;
        }
    }

    /// The compositor closed an overlay: the interaction is over, with
    /// whatever result it had.
    pub fn on_closed(&mut self)
        ensures
            tracker_wf(final(self)@),
            final(self)@ == (TrackerView { exit: true, ..old(self)@ }),
    {
        proof {
            use_type_invariant(&*self);
        }
        self.exit = true;
    }

    /// Escape: the interaction is cancelled, with no selection, whatever
    /// state it was in.
    pub fn on_escape(&mut self)
        ensures
            tracker_wf(final(self)@),
            final(self)@ == (TrackerView { result: None, exit: true, ..old(self)@ }),
    {
        proof {
            use_type_invariant(&*self);
        }
        self.result = None;
        self.exit = true;
    }
}

/// `v` clamped into [0, `hi`].
pub open spec fn clamp_to(v: int, hi: int) -> int {
    if v < 0 {
        0
    } else if v > hi {
        hi
    } else {
        v
    }
}

/// The selection that a dragged rectangle (`x`, `y`, `w`, `h`, physical
/// pixels, possibly reaching past the screen) gives on a `screen_width` x
/// `screen_height` screen: the rectangle is cut at the screen's edges, and
/// what is left is a selection unless it is smaller than `MIN_SELECTION` in
/// either direction (a stray click).
pub open spec fn clamped_selection(
    output_index: usize,
    x: i64,
    y: i64,
    w: i64,
    h: i64,
    screen_width: u32,
    screen_height: u32,
) -> Option<Selection> {
    let x0 = clamp_to(x as int, screen_width as int);
    let y0 = clamp_to(y as int, screen_height as int);
    let x1 = clamp_to(x + w, screen_width as int);
    let y1 = clamp_to(y + h, screen_height as int);
    if x1 - x0 >= MIN_SELECTION && y1 - y0 >= MIN_SELECTION {
        Some(
            Selection {
                output_index,
                x: x0 as u32,
                y: y0 as u32,
                width: (x1 - x0) as u32,
                height: (y1 - y0) as u32,
            },
        )
    } else {
        None
    }
}

/// `v` clamped into [0, `hi`], computed without overflow.
fn clamp_coord(v: i128, hi: u32) -> (r: u32)
    ensures
        r == clamp_to(v as int, hi as int),
{
    if v < 0 {
        0
    } else if v > hi as i128 {
        hi
    } else {
        v as u32
    }
}

/// Turns the dragged rectangle, in physical pixels, into a selection on its
/// screen (see `clamped_selection`).
pub fn clamp_selection(
    output_index: usize,
    x: i64,
    y: i64,
    w: i64,
    h: i64,
    screen_width: u32,
    screen_height: u32,
) -> (r: Option<Selection>)
    ensures
        r == clamped_selection(output_index, x, y, w, h, screen_width, screen_height),
        r matches Some(s) ==> s.width >= MIN_SELECTION && s.height >= MIN_SELECTION,
{
    let x0 = clamp_coord(x as i128, screen_width);
    let y0 = clamp_coord(y as i128, screen_height);
    let x1 = clamp_coord(x as i128 + w as i128, screen_width);
    let y1 = clamp_coord(y as i128 + h as i128, screen_height);
    if x1 >= x0 && y1 >= y0 && x1 - x0 >= MIN_SELECTION && y1 - y0 >= MIN_SELECTION {
        Some(Selection { output_index, x: x0, y: y0, width: x1 - x0, height: y1 - y0 })
    } else {
        None
    }
}

/// Law: a selection always lies inside its screen, so that it can be cut out
/// of the screen's frozen image (it fits, and its byte size is at most the
/// screen's), and it is never smaller than `MIN_SELECTION` either way.
pub proof fn lemma_selection_inside_screen(
    output_index: usize,
    x: i64,
    y: i64,
    w: i64,
    h: i64,
    screen_width: u32,
    screen_height: u32,
)
    ensures
        clamped_selection(output_index, x, y, w, h, screen_width, screen_height) matches Some(s)
            ==> s.output_index == output_index && s.fits(screen_width as int, screen_height as int)
            && s.width >= MIN_SELECTION && s.height >= MIN_SELECTION
            && s.width * s.height * 4 <= screen_width * screen_height * 4,
{
    if let Some(s) = clamped_selection(output_index, x, y, w, h, screen_width, screen_height) {
        assert(s.width * s.height <= screen_width * screen_height) by (nonlinear_arith)
            requires
                0 <= s.width <= screen_width,
                0 <= s.height <= screen_height,
        ;
    }
}

/// Law: a dragged rectangle that lies wholly inside its screen and is at
/// least `MIN_SELECTION` in both directions becomes exactly that selection.
pub proof fn lemma_drag_inside_screen_kept(
    output_index: usize,
    x: i64,
    y: i64,
    w: i64,
    h: i64,
    screen_width: u32,
    screen_height: u32,
)
    requires
        0 <= x,
        x + w <= screen_width,
        0 <= y,
        y + h <= screen_height,
        w >= MIN_SELECTION,
        h >= MIN_SELECTION,
    ensures
        clamped_selection(output_index, x, y, w, h, screen_width, screen_height) == Some(
            Selection {
                output_index,
                x: x as u32,
                y: y as u32,
                width: w as u32,
                height: h as u32,
            },
        ),
{
}

/// Law: the selection is the part of the dragged rectangle that lies on the
/// screen. Its left and top edges are the drag's, moved onto the screen; its
/// right and bottom edges are the drag's, cut at the screen's width and
/// height; and there is one exactly when that part is at least
/// `MIN_SELECTION` in both directions.
pub proof fn lemma_selection_is_intersection(
    output_index: usize,
    x: i64,
    y: i64,
    w: i64,
    h: i64,
    screen_width: u32,
    screen_height: u32,
)
    ensures
        ({
            let left = if x < 0 { 0 } else { x as int };
            let top = if y < 0 { 0 } else { y as int };
            let right = if x + w > screen_width { screen_width as int } else { x + w };
            let bottom = if y + h > screen_height { screen_height as int } else { y + h };
            &&& clamped_selection(output_index, x, y, w, h, screen_width, screen_height) is Some
                <==> right - left >= MIN_SELECTION && bottom - top >= MIN_SELECTION
            &&& clamped_selection(output_index, x, y, w, h, screen_width, screen_height) matches Some(s)
                ==> s.output_index == output_index && s.x == left && s.y == top && s.x + s.width
                == right && s.y + s.height == bottom
        }),
{
}

/// The logical size of an overlay after the compositor configures it with
/// `new_size`: a zero in either direction means "choose yourself" and keeps
/// the current size.
pub fn configured_logical_size(current: (u32, u32), new_size: (u32, u32)) -> (r: (u32, u32))
    ensures
        r == if new_size.0 != 0 && new_size.1 != 0 {
            new_size
        } else {
            current
        },
{
    if new_size.0 != 0 && new_size.1 != 0 {
        new_size
    } else {
        current
    }
}

} // verus!
