//! The selection overlay's pixels.
//!
//! Each screen's overlay shows its frozen image dimmed, with the selected
//! rectangle restored to full brightness and outlined. Two render-ready
//! buffers are computed once per screen (bright and dim, both BGRX: the
//! memory order of wl_shm's `Xrgb8888` on a little-endian machine), so that a
//! frame during a drag is only a copy plus the selection's rows.
use vstd::prelude::*;
use vstd::arithmetic::div_mod::lemma_fundamental_div_mod_converse;
use crate::image::Shot;
use crate::pixel_format::{PixelFormat, rgba_byte, rgba_pixels};

verus! {

/// The brightness kept outside the selection, out of 255 (about 0.55).
pub const DIM_KEEP: u32 = 140;

/// The selection outline's thickness, in physical pixels.
pub const BORDER: i64 = 2;

/// The selection outline's colour, as B, G, R (a blue close to COSMIC's accent).
pub const BORDER_BGR: [u8; 3] = [0xE0, 0x90, 0x30];

/// Byte `c` of the outline colour, in B, G, R order.
pub open spec fn border_bgr(c: int) -> u8 {
    if c == 0 {
        0xE0
    } else if c == 1 {
        0x90
    } else {
        0x30
    }
}

/// The index of byte `c` of pixel (`x`, `y`) in a row-major 4-byte-per-pixel
/// image that is `w` pixels wide.
pub open spec fn px_index(w: int, x: int, y: int, c: int) -> int {
    (y * w + x) * 4 + c
}

/// A colour channel dimmed to `DIM_KEEP`/255 of its brightness, rounded down.
pub open spec fn dim_channel(v: u8) -> u8 {
    (v * DIM_KEEP / 255) as u8
}

/// Byte `j` of the BGRX form of the RGBA8 image `src`: red and blue swapped,
/// the fourth byte 255.
pub open spec fn bgrx_byte(src: Seq<u8>, j: int) -> u8 {
    let c = j % 4;
    if c == 3 {
        255
    } else if c == 1 {
        src[j]
    } else {
        src[j - c + 2 - c]
    }
}

/// Byte `j` of the dimmed BGRX form of the RGBA8 image `src`.
pub open spec fn dim_bgrx_byte(src: Seq<u8>, j: int) -> u8 {
    if j % 4 == 3 {
        255
    } else {
        dim_channel(bgrx_byte(src, j))
    }
}

/// The BGRX form of the first `n` pixels of the RGBA8 image `src`.
pub open spec fn bright_pixels(src: Seq<u8>, n: int) -> Seq<u8> {
    Seq::new((n * 4) as nat, |j: int| bgrx_byte(src, j))
}

/// The dimmed BGRX form of the first `n` pixels of the RGBA8 image `src`.
pub open spec fn dim_pixels(src: Seq<u8>, n: int) -> Seq<u8> {
    Seq::new((n * 4) as nat, |j: int| dim_bgrx_byte(src, j))
}

/// Pixel (`x`, `y`) lies on the outline of the rectangle [x0, x1) x [y0, y1):
/// within `BORDER` pixels of one of its edges, inside it.
pub open spec fn on_outline(x: int, y: int, x0: int, y0: int, x1: int, y1: int) -> bool {
    ||| x0 <= x < x1 && (y0 <= y < y0 + BORDER || y1 - BORDER <= y < y1)
    ||| y0 <= y < y1 && (x0 <= x < x0 + BORDER || x1 - BORDER <= x < x1)
}

/// The outline band of thickness `t` (the outline itself when `t == BORDER`).
spec fn outline_band(x: int, y: int, x0: int, y0: int, x1: int, y1: int, t: int) -> bool {
    ||| x0 <= x < x1 && (y0 <= y < y0 + t || y1 - t <= y < y1)
    ||| y0 <= y < y1 && (x0 <= x < x0 + t || x1 - t <= x < x1)
}

proof fn lemma_pixel_byte(i: int, k: int)
    requires
        0 <= i,
        0 <= k < 4,
    ensures
        (i * 4 + k) % 4 == k,
        (i * 4 + k) - k == i * 4,
{
    lemma_fundamental_div_mod_converse(i * 4 + k, 4, i, k);
}

/// The bytes of distinct (pixel, channel) pairs of an image are distinct, and
/// every one of them is inside the image.
pub(crate) proof fn lemma_px_index(w: int, h: int, x: int, y: int, c: int, x2: int, y2: int, c2: int)
    requires
        0 <= x < w,
        0 <= y < h,
        0 <= c < 4,
        0 <= x2 < w,
        0 <= c2 < 4,
    ensures
        0 <= px_index(w, x, y, c) < w * h * 4,
        px_index(w, x, y, c) == px_index(w, x2, y2, c2) ==> x == x2 && y == y2 && c == c2,
{
    assert(0 <= y * w) by (nonlinear_arith)
        requires
            0 <= y,
            0 <= w,
    ;
    assert(y * w + x < h * w) by (nonlinear_arith)
        requires
            y + 1 <= h,
            0 <= x < w,
    ;
    assert(h * w == w * h) by (nonlinear_arith);
    if px_index(w, x, y, c) == px_index(w, x2, y2, c2) {
        let p = y * w + x;
        let p2 = y2 * w + x2;
        lemma_fundamental_div_mod_converse(p * 4 + c, 4, p, c);
        lemma_fundamental_div_mod_converse(p2 * 4 + c2, 4, p2, c2);
        assert(p == p2);
        lemma_fundamental_div_mod_converse(p, w, y, x);
        lemma_fundamental_div_mod_converse(p2, w, y2, x2);
    }
}

/// Byte `c` of pixel (`x`, `y`) is among the first three bytes of pixel
/// (`a`, `b`) exactly when it is the same pixel and `c < 3`.
proof fn lemma_in_pixel_rgb(w: int, h: int, x: int, y: int, c: int, a: int, b: int)
    requires
        0 <= x < w,
        0 <= y < h,
        0 <= c < 4,
        0 <= a < w,
        0 <= b < h,
    ensures
        (px_index(w, a, b, 0) <= px_index(w, x, y, c) < px_index(w, a, b, 3)) <==> (x == a && y == b
            && c < 3),
        0 <= px_index(w, a, b, 3) < w * h * 4,
{
    lemma_px_index(w, h, a, b, 3, a, b, 3);
    lemma_px_index(w, h, x, y, c, x, y, c);
    let i = px_index(w, x, y, c);
    let base = px_index(w, a, b, 0);
    if base <= i < base + 3 {
        let c2 = i - base;
        assert(i == px_index(w, a, b, c2));
        lemma_px_index(w, h, x, y, c, a, b, c2);
    }
}

/// Computes the two render-ready buffers of a frozen screen: its pixels in
/// BGRX order at full brightness, and the same dimmed to `DIM_KEEP`/255.
pub fn build_render_buffers(shot: &Shot) -> (r: (Vec<u8>, Vec<u8>))
    requires
        shot.wf(),
        shot.width * shot.height <= u32::MAX,
    ensures
        r.0@ == bright_pixels(shot.pixels@, shot.width * shot.height),
        r.1@ == dim_pixels(shot.pixels@, shot.width * shot.height),
{
    let n = (shot.width * shot.height) as usize;
    let total = shot.pixels.len();
    let mut bright: Vec<u8> = Vec::with_capacity(n * 4);
    let mut dim: Vec<u8> = Vec::with_capacity(n * 4);
    let ghost src = shot.pixels@;
    let mut i: usize = 0;
    while i < n
        invariant
            n == shot.width * shot.height,
            src == shot.pixels@,
            total == src.len(),
            src.len() == n * 4,
            0 <= i <= n,
            bright@.len() == i * 4,
            dim@.len() == i * 4,
            forall|j: int| 0 <= j < i * 4 ==> #[trigger] bright@[j] == bgrx_byte(src, j),
            forall|j: int| 0 <= j < i * 4 ==> #[trigger] dim@[j] == dim_bgrx_byte(src, j),
        decreases n - i,
    {
        let r = shot.pixels[i * 4] as u32;
        let g = shot.pixels[i * 4 + 1] as u32;
        let b = shot.pixels[i * 4 + 2] as u32;
        bright.push(b as u8);
        bright.push(g as u8);
        bright.push(r as u8);
        bright.push(255);
        dim.push((b * DIM_KEEP / 255) as u8);
        dim.push((g * DIM_KEEP / 255) as u8);
        dim.push((r * DIM_KEEP / 255) as u8);
        dim.push(255);
        proof {
            assert forall|j: int| 0 <= j < (i + 1) * 4 implies #[trigger] bright@[j] == bgrx_byte(
                src,
                j,
            ) && #[trigger] dim@[j] == dim_bgrx_byte(src, j) by {
                if j >= i * 4 {
                    lemma_pixel_byte(i as int, j - i * 4);
                }
            }
        }
        i = i + 1;
    }
    assert(bright@ =~= bright_pixels(src, n as int));
    assert(dim@ =~= dim_pixels(src, n as int));
    (bright, dim)
}

/// Law: dimming never brightens. Every colour byte of the dim buffer is at
/// most the same byte of the bright buffer and at most `DIM_KEEP`, and pure
/// white dims to `DIM_KEEP`.
pub proof fn lemma_dim_never_brighter(src: Seq<u8>, n: int)
    requires
        0 <= n,
        src.len() == n * 4,
    ensures
        forall|j: int|
            0 <= j < n * 4 ==> #[trigger] dim_pixels(src, n)[j] <= bright_pixels(src, n)[j],
        forall|j: int|
            0 <= j < n * 4 && j % 4 != 3 ==> #[trigger] dim_pixels(src, n)[j] <= DIM_KEEP,
        dim_channel(255) == DIM_KEEP,
{
    assert forall|j: int| 0 <= j < n * 4 && j % 4 != 3 implies #[trigger] dim_pixels(src, n)[j]
        <= DIM_KEEP by {
        lemma_dim_monotone(bgrx_byte(src, j), 255);
    }
    assert forall|j: int| 0 <= j < n * 4 implies #[trigger] dim_pixels(src, n)[j] <= bright_pixels(
        src,
        n,
    )[j] by {
        let v = bgrx_byte(src, j);
        assert(v * 140 / 255 <= v) by (nonlinear_arith)
            requires
                0 <= v <= 255,
        ;
    }
}

/// Law: dimming keeps the order of brightness: a brighter channel never
/// dims to a darker one, and no channel dims above `DIM_KEEP`.
pub proof fn lemma_dim_monotone(a: u8, b: u8)
    ensures
        dim_channel(a) <= DIM_KEEP,
        a <= b ==> dim_channel(a) <= dim_channel(b),
{
    assert(a * 140 / 255 <= 140) by (nonlinear_arith)
        requires
            0 <= a <= 255,
    ;
    if a <= b {
        assert(a * 140 / 255 <= b * 140 / 255) by (nonlinear_arith)
            requires
                0 <= a <= b,
        ;
    }
}

/// Law: dimming scales a channel by `DIM_KEEP`/255 and rounds down: the
/// dimmed value is the largest whose multiple of 255 does not exceed the
/// channel times `DIM_KEEP`.
pub proof fn lemma_dim_is_proportional(v: u8)
    ensures
        dim_channel(v) * 255 <= v * DIM_KEEP < (dim_channel(v) + 1) * 255,
{
    vstd::arithmetic::div_mod::lemma_fundamental_div_mod(v * 140, 255);
    assert(v * 140 / 255 <= 140) by (nonlinear_arith)
        requires
            0 <= v <= 255,
    ;
}

/// Law: the bright buffer is the frozen screen itself, in the memory order
/// of `Xrgb8888`. Decoding it as `Xrgb8888` gives back the screen's pixels
/// with every alpha byte set to 255 (a screen is opaque).
pub proof fn lemma_bright_is_xrgb8888_of_shot(src: Seq<u8>, n: int)
    requires
        0 <= n,
        src.len() == n * 4,
    ensures
        forall|j: int|
            0 <= j < n * 4 ==> #[trigger] rgba_pixels(bright_pixels(src, n), n, PixelFormat::Xrgb8888)[j]
                == if j % 4 == 3 {
                255u8
            } else {
                src[j]
            },
{
    let bright = bright_pixels(src, n);
    assert forall|j: int| 0 <= j < n * 4 implies #[trigger] rgba_pixels(
        bright,
        n,
        PixelFormat::Xrgb8888,
    )[j] == if j % 4 == 3 {
        255u8
    } else {
        src[j]
    } by {
        let c = j % 4;
        let base = j - c;
        assert(0 <= c < 4);
        assert(base % 4 == 0) by {
            lemma_fundamental_div_mod_converse(base, 4, j / 4, 0);
        }
        if c != 3 && c != 1 {
            let k = base + 2 - c;
            lemma_fundamental_div_mod_converse(k, 4, j / 4, 2 - c);
            assert(k % 4 == 2 - c);
            assert(rgba_byte(bright, PixelFormat::Xrgb8888, j) == bright[k]);
        }
    }
}

/// `new` is the `w` x `h` image `old` with the outline of [x0, x1) x
/// [y0, y1) drawn: every pixel on the outline (see `on_outline`) has the
/// outline colour in its B, G, R bytes; every other byte is unchanged,
/// including those past the image. An image with a negative width or height
/// has no pixels: nothing changes.
pub open spec fn border_drawn(
    old: Seq<u8>,
    new: Seq<u8>,
    w: int,
    h: int,
    x0: int,
    y0: int,
    x1: int,
    y1: int,
) -> bool {
    &&& new.len() == old.len()
    &&& (w < 0 || h < 0) ==> new == old
    &&& forall|i: int| w * h * 4 <= i < new.len() ==> #[trigger] new[i] == old[i]
    &&& forall|x: int, y: int, c: int|
        0 <= x < w && 0 <= y < h && 0 <= c < 4 ==> #[trigger] new[px_index(w, x, y, c)] == if c < 3
            && on_outline(x, y, x0, y0, x1, y1) {
            border_bgr(c)
        } else {
            old[px_index(w, x, y, c)]
        }
}

/// Every byte of a `w` x `h` image is byte `c` of some pixel (`x`, `y`).
pub(crate) proof fn lemma_byte_of_pixel(w: int, h: int, j: int)
    requires
        0 <= w,
        0 <= h,
        0 <= j < w * h * 4,
    ensures
        0 <= (j / 4) % w < w,
        0 <= (j / 4) / w < h,
        0 <= j % 4 < 4,
        j == px_index(w, (j / 4) % w, (j / 4) / w, j % 4),
{
    let p = j / 4;
    vstd::arithmetic::div_mod::lemma_fundamental_div_mod(j, 4);
    assert(w > 0) by (nonlinear_arith)
        requires
            0 <= j < w * h * 4,
            0 <= h,
            0 <= w,
    ;
    vstd::arithmetic::div_mod::lemma_fundamental_div_mod(p, w);
    assert(0 <= p < w * h);
    assert(p / w < h) by (nonlinear_arith)
        requires
            p == w * (p / w) + p % w,
            0 <= p % w < w,
            p < w * h,
            w > 0,
    ;
    assert(p / w >= 0) by (nonlinear_arith)
        requires
            p == w * (p / w) + p % w,
            0 <= p % w < w,
            p >= 0,
            w > 0,
    ;
    assert(p == (p / w) * w + p % w) by (nonlinear_arith)
        requires
            p == w * (p / w) + p % w,
    ;
}

/// Law: drawing the outline twice draws it once: a second `draw_border` with
/// the same rectangle leaves the canvas as the first left it.
pub proof fn lemma_border_idempotent(
    a: Seq<u8>,
    b: Seq<u8>,
    c: Seq<u8>,
    w: int,
    h: int,
    x0: int,
    y0: int,
    x1: int,
    y1: int,
)
    requires
        0 <= w && 0 <= h ==> a.len() >= w * h * 4,
        border_drawn(a, b, w, h, x0, y0, x1, y1),
        border_drawn(b, c, w, h, x0, y0, x1, y1),
    ensures
        c == b,
{
    if 0 <= w && 0 <= h {
        assert forall|j: int| 0 <= j < c.len() implies #[trigger] c[j] == b[j] by {
            if j < w * h * 4 {
                lemma_byte_of_pixel(w, h, j);
                let x = (j / 4) % w;
                let y = (j / 4) / w;
                let k = j % 4;
                assert(c[px_index(w, x, y, k)] == if k < 3 && on_outline(x, y, x0, y0, x1, y1) {
                    border_bgr(k)
                } else {
                    b[px_index(w, x, y, k)]
                });
                assert(b[px_index(w, x, y, k)] == if k < 3 && on_outline(x, y, x0, y0, x1, y1) {
                    border_bgr(k)
                } else {
                    a[px_index(w, x, y, k)]
                });
            }
        }
        assert(c =~= b);
    }
}

/// Paints one outline pixel, when (`x`, `y`) is inside the `w` x `h` image.
fn put_outline_pixel(canvas: &mut [u8], w: i64, h: i64, x: i64, y: i64)
    requires
        0 <= w,
        0 <= h,
        w * h * 4 <= i64::MAX,
        old(canvas)@.len() >= w * h * 4,
    ensures
        final(canvas)@.len() == old(canvas)@.len(),
        forall|i: int|
            0 <= i < final(canvas)@.len() ==> #[trigger] final(canvas)@[i] == if 0 <= x < w && 0 <= y
                < h && px_index(w as int, x as int, y as int, 0) <= i < px_index(
                w as int,
                x as int,
                y as int,
                3,
            ) {
                border_bgr(i - px_index(w as int, x as int, y as int, 0))
            } else {
                old(canvas)@[i]
            },
{
    if x < 0 || y < 0 || x >= w || y >= h {
        return;
    }
    proof {
        lemma_px_index(w as int, h as int, x as int, y as int, 3, x as int, y as int, 3);
        assert(y * w >= 0) by (nonlinear_arith)
            requires
                y >= 0,
                w >= 0,
        ;
    }
    let i = ((y * w + x) * 4) as usize;
    canvas[i] = BORDER_BGR[0];
    canvas[i + 1] = BORDER_BGR[1];
    canvas[i + 2] = BORDER_BGR[2];
}

/// Draws the selection outline: every pixel of the `w` x `h` canvas that lies
/// on the outline of [x0, x1) x [y0, y1) (see `on_outline`) gets the outline
/// colour in its B, G, R bytes. Nothing else changes.
pub fn draw_border(canvas: &mut [u8], w: i64, h: i64, x0: i64, y0: i64, x1: i64, y1: i64)
    requires
        0 <= w && 0 <= h ==> old(canvas)@.len() >= w * h * 4 && w * h * 4 <= i64::MAX,
        x0 < x1 ==> y0 + (BORDER - 1) <= i64::MAX && y1 - BORDER >= i64::MIN,
        y0 < y1 ==> x0 + (BORDER - 1) <= i64::MAX && x1 - BORDER >= i64::MIN,
    ensures
        border_drawn(
            old(canvas)@,
            final(canvas)@,
            w as int,
            h as int,
            x0 as int,
            y0 as int,
            x1 as int,
            y1 as int,
        ),
{
    if w < 0 || h < 0 {
        return;
    }
    let ghost old_canvas = canvas@;
    let mut t: i64 = 0;
    while t < BORDER
        invariant
            0 <= w,
            0 <= h,
            old_canvas.len() >= w * h * 4,
            w * h * 4 <= i64::MAX,
            x0 < x1 ==> y0 + (BORDER - 1) <= i64::MAX && y1 - BORDER >= i64::MIN,
            y0 < y1 ==> x0 + (BORDER - 1) <= i64::MAX && x1 - BORDER >= i64::MIN,
            0 <= t <= BORDER,
            canvas@.len() == old_canvas.len(),
            forall|i: int| w * h * 4 <= i < canvas@.len() ==> #[trigger] canvas@[i] == old_canvas[i],
            forall|x: int, y: int, c: int|
                0 <= x < w && 0 <= y < h && 0 <= c < 4 ==> #[trigger] canvas@[px_index(
                    w as int,
                    x,
                    y,
                    c,
                )] == if c < 3 && outline_band(x, y, x0 as int, y0 as int, x1 as int, y1 as int, t as int) {
                    border_bgr(c)
                } else {
                    old_canvas[px_index(w as int, x, y, c)]
                },
        decreases BORDER - t,
    {
        let mut x = x0;
        while x < x1
            invariant
                0 <= w,
                0 <= h,
                old_canvas.len() >= w * h * 4,
                w * h * 4 <= i64::MAX,
            w * h * 4 <= i64::MAX,
                x0 < x1 ==> y0 + (BORDER - 1) <= i64::MAX && y1 - BORDER >= i64::MIN,
                y0 < y1 ==> x0 + (BORDER - 1) <= i64::MAX && x1 - BORDER >= i64::MIN,
                0 <= t < BORDER,
                x0 <= x,
                x <= x1 || x == x0,
                canvas@.len() == old_canvas.len(),
                forall|i: int| w * h * 4 <= i < canvas@.len() ==> #[trigger] canvas@[i] == old_canvas[i],
                forall|px: int, py: int, c: int|
                    0 <= px < w && 0 <= py < h && 0 <= c < 4 ==> #[trigger] canvas@[px_index(
                        w as int,
                        px,
                        py,
                        c,
                    )] == if c < 3 && (outline_band(
                        px,
                        py,
                        x0 as int,
                        y0 as int,
                        x1 as int,
                        y1 as int,
                        t as int,
                    ) || (x0 <= px < x && (py == y0 + t || py == y1 - 1 - t))) {
                        border_bgr(c)
                    } else {
                        old_canvas[px_index(w as int, px, py, c)]
                    },
            decreases x1 - x,
        {
            let ghost before = canvas@;
            put_outline_pixel(canvas, w, h, x, y0 + t);
            let ghost mid = canvas@;
            put_outline_pixel(canvas, w, h, x, y1 - 1 - t);
            proof {
                assert forall|px: int, py: int, c: int|
                    0 <= px < w && 0 <= py < h && 0 <= c < 4 implies #[trigger] canvas@[px_index(
                    w as int,
                    px,
                    py,
                    c,
                )] == if c < 3 && (outline_band(
                    px,
                    py,
                    x0 as int,
                    y0 as int,
                    x1 as int,
                    y1 as int,
                    t as int,
                ) || (x0 <= px < x + 1 && (py == y0 + t || py == y1 - 1 - t))) {
                    border_bgr(c)
                } else {
                    old_canvas[px_index(w as int, px, py, c)]
                } by {
                    let i = px_index(w as int, px, py, c);
                    lemma_px_index(w as int, h as int, px, py, c, px, py, 0);
                    if 0 <= x < w && 0 <= y0 + t < h {
                        lemma_in_pixel_rgb(w as int, h as int, px, py, c, x as int, y0 + t);
                    }
                    if 0 <= x < w && 0 <= y1 - 1 - t < h {
                        lemma_in_pixel_rgb(w as int, h as int, px, py, c, x as int, y1 - 1 - t);
                    }
                    assert(canvas@[i] == if 0 <= x < w && 0 <= y1 - 1 - t < h && px_index(
                        w as int,
                        x as int,
                        y1 - 1 - t,
                        0,
                    ) <= i < px_index(w as int, x as int, y1 - 1 - t, 3) {
                        border_bgr(i - px_index(w as int, x as int, y1 - 1 - t, 0))
                    } else {
                        mid[i]
                    });
                    assert(mid[i] == if 0 <= x < w && 0 <= y0 + t < h && px_index(
                        w as int,
                        x as int,
                        y0 + t,
                        0,
                    ) <= i < px_index(w as int, x as int, y0 + t, 3) {
                        border_bgr(i - px_index(w as int, x as int, y0 + t, 0))
                    } else {
                        before[i]
                    });
                }
                if 0 <= x < w && 0 <= y0 + t < h {
                    lemma_in_pixel_rgb(w as int, h as int, x as int, y0 + t, 0, x as int, y0 + t);
                }
                if 0 <= x < w && 0 <= y1 - 1 - t < h {
                    lemma_in_pixel_rgb(w as int, h as int, x as int, y1 - 1 - t, 0, x as int, y1 - 1 - t);
                }
            }
            x = x + 1;
        }
        assert forall|px: int, py: int, c: int|
            0 <= px < w && 0 <= py < h && 0 <= c < 4 implies #[trigger] canvas@[px_index(
            w as int,
            px,
            py,
            c,
        )] == if c < 3 && (outline_band(px, py, x0 as int, y0 as int, x1 as int, y1 as int, t as int)
            || (x0 <= px < x1 && (py == y0 + t || py == y1 - 1 - t)) || (y0 <= py < y0 && (px == x0
            + t || px == x1 - 1 - t))) {
            border_bgr(c)
        } else {
            old_canvas[px_index(w as int, px, py, c)]
        } by {
        }
        let mut y = y0;
        while y < y1
            invariant
                0 <= w,
                0 <= h,
                old_canvas.len() >= w * h * 4,
                w * h * 4 <= i64::MAX,
            w * h * 4 <= i64::MAX,
                x0 < x1 ==> y0 + (BORDER - 1) <= i64::MAX && y1 - BORDER >= i64::MIN,
                y0 < y1 ==> x0 + (BORDER - 1) <= i64::MAX && x1 - BORDER >= i64::MIN,
                0 <= t < BORDER,
                y0 <= y,
                y <= y1 || y == y0,
                canvas@.len() == old_canvas.len(),
                forall|i: int| w * h * 4 <= i < canvas@.len() ==> #[trigger] canvas@[i] == old_canvas[i],
                forall|px: int, py: int, c: int|
                    0 <= px < w && 0 <= py < h && 0 <= c < 4 ==> #[trigger] canvas@[px_index(
                        w as int,
                        px,
                        py,
                        c,
                    )] == if c < 3 && (outline_band(
                        px,
                        py,
                        x0 as int,
                        y0 as int,
                        x1 as int,
                        y1 as int,
                        t as int,
                    ) || (x0 <= px < x1 && (py == y0 + t || py == y1 - 1 - t)) || (y0 <= py < y
                        && (px == x0 + t || px == x1 - 1 - t))) {
                        border_bgr(c)
                    } else {
                        old_canvas[px_index(w as int, px, py, c)]
                    },
            decreases y1 - y,
        {
            let ghost before = canvas@;
            put_outline_pixel(canvas, w, h, x0 + t, y);
            let ghost mid = canvas@;
            put_outline_pixel(canvas, w, h, x1 - 1 - t, y);
            proof {
                assert forall|px: int, py: int, c: int|
                    0 <= px < w && 0 <= py < h && 0 <= c < 4 implies #[trigger] canvas@[px_index(
                    w as int,
                    px,
                    py,
                    c,
                )] == if c < 3 && (outline_band(
                    px,
                    py,
                    x0 as int,
                    y0 as int,
                    x1 as int,
                    y1 as int,
                    t as int,
                ) || (x0 <= px < x1 && (py == y0 + t || py == y1 - 1 - t)) || (y0 <= py < y + 1
                    && (px == x0 + t || px == x1 - 1 - t))) {
                    border_bgr(c)
                } else {
                    old_canvas[px_index(w as int, px, py, c)]
                } by {
                    let i = px_index(w as int, px, py, c);
                    lemma_px_index(w as int, h as int, px, py, c, px, py, 0);
                    if 0 <= x0 + t < w && 0 <= y < h {
                        lemma_in_pixel_rgb(w as int, h as int, px, py, c, x0 + t, y as int);
                    }
                    if 0 <= x1 - 1 - t < w && 0 <= y < h {
                        lemma_in_pixel_rgb(w as int, h as int, px, py, c, x1 - 1 - t, y as int);
                    }
                    assert(canvas@[i] == if 0 <= x1 - 1 - t < w && 0 <= y < h && px_index(
                        w as int,
                        x1 - 1 - t,
                        y as int,
                        0,
                    ) <= i < px_index(w as int, x1 - 1 - t, y as int, 3) {
                        border_bgr(i - px_index(w as int, x1 - 1 - t, y as int, 0))
                    } else {
                        mid[i]
                    });
                    assert(mid[i] == if 0 <= x0 + t < w && 0 <= y < h && px_index(
                        w as int,
                        x0 + t,
                        y as int,
                        0,
                    ) <= i < px_index(w as int, x0 + t, y as int, 3) {
                        border_bgr(i - px_index(w as int, x0 + t, y as int, 0))
                    } else {
                        before[i]
                    });
                }
                if 0 <= x0 + t < w && 0 <= y < h {
                    lemma_in_pixel_rgb(w as int, h as int, x0 + t, y as int, 0, x0 + t, y as int);
                }
                if 0 <= x1 - 1 - t < w && 0 <= y < h {
                    lemma_in_pixel_rgb(w as int, h as int, x1 - 1 - t, y as int, 0, x1 - 1 - t, y as int);
                }
            }
            y = y + 1;
        }
        assert forall|px: int, py: int, c: int|
            0 <= px < w && 0 <= py < h && 0 <= c < 4 implies #[trigger] canvas@[px_index(
            w as int,
            px,
            py,
            c,
        )] == if c < 3 && outline_band(px, py, x0 as int, y0 as int, x1 as int, y1 as int, t + 1) {
            border_bgr(c)
        } else {
            old_canvas[px_index(w as int, px, py, c)]
        } by {}
        t = t + 1;
    }
}

/// `v` clamped into [lo, hi].
pub open spec fn clamp(v: int, lo: int, hi: int) -> int {
    if v < lo {
        lo
    } else if v > hi {
        hi
    } else {
        v
    }
}

/// The selection rectangle (x, y, width, height) as drawn on a `w` x `h`
/// canvas: `None` when there is no selection or it is empty; otherwise its
/// corners [x0, x1) x [y0, y1), clamped to the canvas.
pub open spec fn drawn_rect(sel: Option<(i64, i64, i64, i64)>, w: int, h: int) -> Option<
    (int, int, int, int),
> {
    match sel {
        Some((sx, sy, sw, sh)) => if sw > 0 && sh > 0 {
            Some(
                (
                    clamp(sx as int, 0, w),
                    clamp(sy as int, 0, h),
                    clamp(sx + sw, 0, w),
                    clamp(sy + sh, 0, h),
                ),
            )
        } else {
            None
        },
        None => None,
    }
}

/// Byte `c` of pixel (`x`, `y`) of an overlay frame: the outline colour on
/// the drawn selection's outline, the bright buffer elsewhere inside the drawn
/// selection, the dim buffer everywhere else. (The outline of a rectangle
/// thinner than `BORDER` reaches past its far edge, as drawn.)
pub open spec fn overlay_byte(
    bright: Seq<u8>,
    dim: Seq<u8>,
    w: int,
    h: int,
    sel: Option<(i64, i64, i64, i64)>,
    x: int,
    y: int,
    c: int,
) -> u8 {
    match drawn_rect(sel, w, h) {
        Some((x0, y0, x1, y1)) => if c < 3 && on_outline(x, y, x0, y0, x1, y1) {
            border_bgr(c)
        } else if x0 <= x < x1 && y0 <= y < y1 {
            bright[px_index(w, x, y, c)]
        } else {
            dim[px_index(w, x, y, c)]
        },
        None => dim[px_index(w, x, y, c)],
    }
}

/// The bytes of row `y` from column `x0` up to column `x1` of a `w`-wide
/// image are exactly the bytes of the pixels of that row in [x0, x1).
proof fn lemma_row_span(w: int, h: int, x0: int, x1: int, y: int, px: int, py: int, c: int)
    requires
        0 <= x0 <= x1 <= w,
        0 <= y < h,
        0 <= px < w,
        0 <= py < h,
        0 <= c < 4,
    ensures
        (px_index(w, x0, y, 0) <= px_index(w, px, py, c) < px_index(w, x1, y, 0)) <==> (py == y
            && x0 <= px < x1),
{
    let p = py * w + px;
    let i = px_index(w, px, py, c);
    lemma_fundamental_div_mod_converse(i, 4, p, c);
    if py < y {
        assert(py * w + px < y * w) by (nonlinear_arith)
            requires
                py + 1 <= y,
                0 <= px < w,
        ;
    } else if py > y {
        assert(y * w + x1 <= py * w) by (nonlinear_arith)
            requires
                y + 1 <= py,
                x1 <= w,
                0 <= w,
        ;
    }
}

/// Renders one overlay frame into `canvas` (a `w` x `h` BGRX image): the
/// dim buffer everywhere, then the selection (x, y, width, height), when it
/// is non-empty, clamped to the canvas, restored from the bright buffer and
/// outlined (see `overlay_byte`). Bytes past the image are left as they were.
pub fn compose_overlay_frame(
    canvas: &mut [u8],
    bright: &[u8],
    dim: &[u8],
    w: i32,
    h: i32,
    sel: Option<(i64, i64, i64, i64)>,
)
    requires
        0 <= w,
        0 <= h,
        w * 4 <= i32::MAX,
        w * h * 4 <= i32::MAX,
        old(canvas)@.len() >= w * h * 4,
        bright@.len() >= w * h * 4,
        dim@.len() >= w * h * 4,
        sel matches Some((sx, sy, sw, sh)) ==> (sw > 0 && sh > 0 ==> i64::MIN <= sx + sw <= i64::MAX
            && i64::MIN <= sy + sh <= i64::MAX),
    ensures
        final(canvas)@.len() == old(canvas)@.len(),
        forall|i: int|
            w * h * 4 <= i < final(canvas)@.len() ==> #[trigger] final(canvas)@[i] == old(canvas)@[i],
        forall|x: int, y: int, c: int|
            0 <= x < w && 0 <= y < h && 0 <= c < 4 ==> #[trigger] final(canvas)@[px_index(
                w as int,
                x,
                y,
                c,
            )] == overlay_byte(bright@, dim@, w as int, h as int, sel, x, y, c),
{
    let stride = w * 4;
    assert(stride * h == w * h * 4) by (nonlinear_arith)
        requires
            stride == w * 4,
    ;
    let len = (stride * h) as usize;
    let ghost old_canvas = canvas@;
    let mut i: usize = 0;
    while i < len
        invariant
            len == w * h * 4,
            canvas@.len() == old_canvas.len(),
            old_canvas.len() >= len,
            dim@.len() >= len,
            0 <= i <= len,
            forall|k: int| 0 <= k < i ==> #[trigger] canvas@[k] == dim@[k],
            forall|k: int| len <= k < canvas@.len() ==> #[trigger] canvas@[k] == old_canvas[k],
        decreases len - i,
    {
        canvas[i] = dim[i];
        i = i + 1;
    }
    proof {
        assert forall|x: int, y: int, c: int|
            0 <= x < w && 0 <= y < h && 0 <= c < 4 implies #[trigger] canvas@[px_index(
            w as int,
            x,
            y,
            c,
        )] == dim@[px_index(w as int, x, y, c)] by {
            lemma_px_index(w as int, h as int, x, y, c, x, y, c);
        }
    }
    if let Some((sx, sy, sw, sh)) = sel {
        if sw > 0 && sh > 0 {
            let wl = w as i64;
            let hl = h as i64;
            let x0 = if sx < 0 { 0 } else if sx > wl { wl } else { sx };
            let y0 = if sy < 0 { 0 } else if sy > hl { hl } else { sy };
            let x1 = if sx + sw < 0 { 0 } else if sx + sw > wl { wl } else { sx + sw };
            let y1 = if sy + sh < 0 { 0 } else if sy + sh > hl { hl } else { sy + sh };
            assert(x0 <= x1 && y0 <= y1);
            let mut y = y0;
            while y < y1
                invariant
                    0 <= w,
                    0 <= h,
                    wl == w,
                    hl == h,
                    len == w * h * 4,
                    w * h * 4 <= i32::MAX,
                    0 <= x0 <= x1 <= w,
                    0 <= y0 <= y1 <= h,
                    y0 <= y <= y1,
                    canvas@.len() == old_canvas.len(),
                    old_canvas.len() >= len,
                    dim@.len() >= len,
                    bright@.len() >= len,
                    forall|k: int| len <= k < canvas@.len() ==> #[trigger] canvas@[k] == old_canvas[k],
                    forall|px: int, py: int, c: int|
                        0 <= px < w && 0 <= py < h && 0 <= c < 4 ==> #[trigger] canvas@[px_index(
                            w as int,
                            px,
                            py,
                            c,
                        )] == if x0 <= px < x1 && y0 <= py < y {
                            bright@[px_index(w as int, px, py, c)]
                        } else {
                            dim@[px_index(w as int, px, py, c)]
                        },
                decreases y1 - y,
            {
                proof {
                    assert(0 <= y * wl) by (nonlinear_arith)
                        requires
                            0 <= y,
                            0 <= wl,
                    ;
                    assert(y * wl + x1 <= w * h) by (nonlinear_arith)
                        requires
                            y + 1 <= h,
                            x1 <= w,
                            wl == w,
                            0 <= w,
                    ;
                }
                let row = (y * wl) as usize * 4;
                let a = row + x0 as usize * 4;
                let b = row + x1 as usize * 4;
                assert(a == px_index(w as int, x0 as int, y as int, 0));
                assert(b == px_index(w as int, x1 as int, y as int, 0));
                let mut k = a;
                while k < b
                    invariant
                        0 <= w,
                        0 <= h,
                        len == w * h * 4,
                        0 <= x0 <= x1 <= w,
                        0 <= y0 <= y < y1 <= h,
                        a == px_index(w as int, x0 as int, y as int, 0),
                        b == px_index(w as int, x1 as int, y as int, 0),
                        a <= k <= b,
                        b <= len,
                        canvas@.len() == old_canvas.len(),
                        old_canvas.len() >= len,
                        dim@.len() >= len,
                        bright@.len() >= len,
                        forall|q: int| len <= q < canvas@.len() ==> #[trigger] canvas@[q] == old_canvas[q],
                        forall|px: int, py: int, c: int|
                            0 <= px < w && 0 <= py < h && 0 <= c < 4 ==> #[trigger] canvas@[px_index(
                                w as int,
                                px,
                                py,
                                c,
                            )] == if (x0 <= px < x1 && y0 <= py < y) || (a <= px_index(
                                w as int,
                                px,
                                py,
                                c,
                            ) < k) {
                                bright@[px_index(w as int, px, py, c)]
                            } else {
                                dim@[px_index(w as int, px, py, c)]
                            },
                    decreases b - k,
                {
                    let ghost before = canvas@;
                    canvas[k] = bright[k];
                    proof {
                        assert forall|px: int, py: int, c: int|
                            0 <= px < w && 0 <= py < h && 0 <= c < 4 implies #[trigger] canvas@[px_index(
                            w as int,
                            px,
                            py,
                            c,
                        )] == if (x0 <= px < x1 && y0 <= py < y) || (a <= px_index(
                            w as int,
                            px,
                            py,
                            c,
                        ) < k + 1) {
                            bright@[px_index(w as int, px, py, c)]
                        } else {
                            dim@[px_index(w as int, px, py, c)]
                        } by {
                            let q = px_index(w as int, px, py, c);
                            lemma_px_index(w as int, h as int, px, py, c, px, py, c);
                            assert(before[q] == if (x0 <= px < x1 && y0 <= py < y) || (a <= q < k) {
                                bright@[q]
                            } else {
                                dim@[q]
                            });
                        }
                    }
                    k = k + 1;
                }
                proof {
                    assert forall|px: int, py: int, c: int|
                        0 <= px < w && 0 <= py < h && 0 <= c < 4 implies #[trigger] canvas@[px_index(
                        w as int,
                        px,
                        py,
                        c,
                    )] == if x0 <= px < x1 && y0 <= py < y + 1 {
                        bright@[px_index(w as int, px, py, c)]
                    } else {
                        dim@[px_index(w as int, px, py, c)]
                    } by {
                        lemma_row_span(w as int, h as int, x0 as int, x1 as int, y as int, px, py, c);
                    }
                }
                y = y + 1;
            }
            proof {
                assert(w * h * 4 <= i64::MAX);
            }
            let ghost before_border = canvas@;
            draw_border(canvas, wl, hl, x0, y0, x1, y1);
            proof {
                assert forall|x: int, y: int, c: int|
                    0 <= x < w && 0 <= y < h && 0 <= c < 4 implies #[trigger] canvas@[px_index(
                    w as int,
                    x,
                    y,
                    c,
                )] == overlay_byte(bright@, dim@, w as int, h as int, sel, x, y, c) by {
                    assert(drawn_rect(sel, w as int, h as int) == Some(
                        (x0 as int, y0 as int, x1 as int, y1 as int),
                    ));
                    let q = px_index(w as int, x, y, c);
                    lemma_px_index(w as int, h as int, x, y, c, x, y, c);
                    assert(before_border[q] == if x0 <= x < x1 && y0 <= y < y1 {
                        bright@[q]
                    } else {
                        dim@[q]
                    });
                }
            }
        }
    }
}

/// Law: on any `w` x `h` canvas, square or not, a non-empty selection
/// (`sx`, `sy`, `sw`, `sh`) that lies inside the canvas is drawn at exactly
/// its own corners: every pixel at least `BORDER` away from each of its edges
/// shows the bright buffer, every pixel within `BORDER` of an edge (inside
/// the selection) shows the outline colour, and every pixel outside it shows
/// the dim buffer (when the selection is at least `BORDER` wide and high: the
/// outline of a thinner one reaches past its far edge).
pub proof fn lemma_inside_selection_drawn_exactly(
    bright: Seq<u8>,
    dim: Seq<u8>,
    w: int,
    h: int,
    sx: i64,
    sy: i64,
    sw: i64,
    sh: i64,
    x: int,
    y: int,
    c: int,
)
    requires
        0 <= sx,
        sx + sw <= w,
        0 <= sy,
        sy + sh <= h,
        sw > 0,
        sh > 0,
        0 <= x < w,
        0 <= y < h,
        0 <= c < 4,
    ensures
        drawn_rect(Some((sx, sy, sw, sh)), w, h) == Some(
            (sx as int, sy as int, sx + sw, sy + sh),
        ),
        sx + BORDER <= x < sx + sw - BORDER && sy + BORDER <= y < sy + sh - BORDER ==> overlay_byte(
            bright,
            dim,
            w,
            h,
            Some((sx, sy, sw, sh)),
            x,
            y,
            c,
        ) == bright[px_index(w, x, y, c)],
        sw >= BORDER && sh >= BORDER && !(sx <= x < sx + sw && sy <= y < sy + sh) ==> overlay_byte(
            bright,
            dim,
            w,
            h,
            Some((sx, sy, sw, sh)),
            x,
            y,
            c,
        ) == dim[px_index(w, x, y, c)],
        sx <= x < sx + sw && sy <= y < sy + sh && c < 3 && !(sx + BORDER <= x < sx + sw - BORDER
            && sy + BORDER <= y < sy + sh - BORDER) ==> overlay_byte(
            bright,
            dim,
            w,
            h,
            Some((sx, sy, sw, sh)),
            x,
            y,
            c,
        ) == border_bgr(c),
{
}

/// Law: without a selection, or with an empty one, the whole frame is the
/// dim buffer.
pub proof fn lemma_no_selection_all_dim(
    bright: Seq<u8>,
    dim: Seq<u8>,
    w: int,
    h: int,
    sel: Option<(i64, i64, i64, i64)>,
    x: int,
    y: int,
    c: int,
)
    requires
        sel matches Some((sx, sy, sw, sh)) ==> sw <= 0 || sh <= 0,
    ensures
        overlay_byte(bright, dim, w, h, sel, x, y, c) == dim[px_index(w, x, y, c)],
{
}

} // verus!
