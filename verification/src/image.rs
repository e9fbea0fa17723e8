//! Frozen screen images and rectangular crops of them.
//!
//! A `Shot` is one screen's frozen pixels: RGBA8, row-major, no padding.
//! A `Selection` is a rectangle on one screen, in physical pixels, with its
//! origin at that screen's top-left corner.
use vstd::prelude::*;
use vstd::arithmetic::div_mod::lemma_fundamental_div_mod_converse;

verus! {

/// One screen's frozen pixels: RGBA8, row-major, no padding.
pub struct Shot {
    pub width: u32,
    pub height: u32,
    /// `len == width * height * 4`
    pub pixels: Vec<u8>,
}

impl Shot {
    /// The pixel buffer holds exactly `width * height` RGBA8 pixels.
    pub open spec fn wf(&self) -> bool {
        self.pixels@.len() == self.width * self.height * 4
    }
}

/// A selected rectangle, in physical pixels, origin at the top-left corner of
/// the screen `output_index`.
#[derive(Clone, Copy, Debug, PartialEq, Eq, Structural)]
pub struct Selection {
    pub output_index: usize,
    pub x: u32,
    pub y: u32,
    pub width: u32,
    pub height: u32,
}

impl Selection {
    /// The rectangle lies inside a `screen_width` x `screen_height` image.
    pub open spec fn fits(&self, screen_width: int, screen_height: int) -> bool {
        &&& self.x + self.width <= screen_width
        &&& self.y + self.height <= screen_height
    }
}

/// The RGBA8 bytes of the `w` x `h` rectangle at (`x`, `y`) of a row-major
/// RGBA8 image `src` that is `src_width` pixels wide. Byte `i` of the result
/// lies in row `i / (4w)` of the rectangle, at byte `i % (4w)` of that row.
pub open spec fn crop_pixels(src: Seq<u8>, src_width: int, x: int, y: int, w: int, h: int) -> Seq<u8> {
    Seq::new(
        (w * h * 4) as nat,
        |i: int| src[((y + i / (w * 4)) * src_width + x) * 4 + i % (w * 4)],
    )
}

/// Row `row` of a rectangle that fits in the image starts and ends inside it.
proof fn lemma_row_in_bounds(width: int, height: int, x: int, y: int, w: int, h: int, row: int)
    requires
        0 <= x,
        0 <= y,
        0 <= w,
        0 <= row < h,
        x + w <= width,
        y + h <= height,
    ensures
        0 <= ((y + row) * width + x) * 4,
        ((y + row) * width + x) * 4 + w * 4 <= width * height * 4,
{
    assert((y + row) * width >= 0) by (nonlinear_arith)
        requires
            y + row >= 0,
            width >= 0,
    ;
    assert((y + row) * width + width <= height * width) by (nonlinear_arith)
        requires
            y + row + 1 <= height,
            width >= 0,
    ;
    assert(width * height == height * width) by (nonlinear_arith);
}

/// Byte `i` of rectangle row `row` sits at index `row * 4w + i` of the crop.
proof fn lemma_crop_index(w: int, row: int, i: int)
    requires
        w > 0,
        row >= 0,
        0 <= i < w * 4,
    ensures
        (row * (w * 4) + i) / (w * 4) == row,
        (row * (w * 4) + i) % (w * 4) == i,
{
    lemma_fundamental_div_mod_converse(row * (w * 4) + i, w * 4, row, i);
}

/// Cuts the selected rectangle out of a frozen screen image.
///
/// The result is `sel.width` x `sel.height` pixels, RGBA8, and each of its
/// pixels is the pixel of `shot` at the same place inside the rectangle.
pub fn crop(shot: &Shot, sel: &Selection) -> (r: Shot)
    requires
        shot.wf(),
        sel.fits(shot.width as int, shot.height as int),
        sel.width * sel.height * 4 <= u32::MAX,
    ensures
        r.wf(),
        r.width == sel.width,
        r.height == sel.height,
        r.pixels@ == crop_pixels(
            shot.pixels@,
            shot.width as int,
            sel.x as int,
            sel.y as int,
            sel.width as int,
            sel.height as int,
        ),
{
    let mut pixels: Vec<u8> = Vec::with_capacity((sel.width * sel.height * 4) as usize);
    let ghost src = shot.pixels@;
    let ghost (sw, sh, sx, sy, big_w) = (
        sel.width as int,
        sel.height as int,
        sel.x as int,
        sel.y as int,
        shot.width as int,
    );
    let total_len = shot.pixels.len();
    let mut row: u32 = 0;
    while row < sel.height
        invariant
            shot.wf(),
            sel.fits(shot.width as int, shot.height as int),
            src == shot.pixels@,
            total_len == src.len(),
            sw == sel.width,
            sh == sel.height,
            sx == sel.x,
            sy == sel.y,
            big_w == shot.width,
            0 <= row <= sel.height,
            pixels@.len() == row * (sw * 4),
            forall|i: int|
                0 <= i < row * (sw * 4) ==> #[trigger] pixels@[i] == src[((sy + i / (sw * 4)) * big_w
                    + sx) * 4 + i % (sw * 4)],
        decreases sel.height - row,
    {
        let y = (sel.y + row) as usize;
        proof {
            lemma_row_in_bounds(big_w, shot.height as int, sx, sy, sw, sh, row as int);
            assert(y as int * big_w == (sy + row) * big_w);
            assert(0 <= y as int * big_w) by (nonlinear_arith)
                requires
                    y >= 0,
                    big_w >= 0,
            ;
        }
        let start = (y * shot.width as usize + sel.x as usize) * 4;
        let end = start + sel.width as usize * 4;
        let ghost before = pixels@;
        pixels.extend_from_slice(&shot.pixels[start..end]);
        proof {
            assert(pixels@.len() == (row + 1) * (sw * 4)) by (nonlinear_arith)
                requires
                    pixels@.len() == row * (sw * 4) + sw * 4,
            ;
            assert forall|i: int| 0 <= i < (row + 1) * (sw * 4) implies #[trigger] pixels@[i] == src[((
            sy + i / (sw * 4)) * big_w + sx) * 4 + i % (sw * 4)] by {
                if i >= row * (sw * 4) {
                    let k = i - row * (sw * 4);
                    lemma_crop_index(sw, row as int, k);
                    assert(pixels@[i] == src[start as int + k]);
                }
            }
        }
        row = row + 1;
    }
    proof {
        assert(pixels@.len() == sw * sh * 4) by (nonlinear_arith)
            requires
                pixels@.len() == sh * (sw * 4),
        ;
        assert(pixels@ =~= crop_pixels(src, big_w, sx, sy, sw, sh));
    }
    Shot { width: sel.width, height: sel.height, pixels }
}

/// Law: cropping the whole image gives the image back, byte for byte.
pub proof fn lemma_crop_whole_image(shot: Shot)
    requires
        shot.wf(),
    ensures
        crop_pixels(
            shot.pixels@,
            shot.width as int,
            0,
            0,
            shot.width as int,
            shot.height as int,
        ) == shot.pixels@,
{
    let w = shot.width as int;
    let h = shot.height as int;
    let c = crop_pixels(shot.pixels@, w, 0, 0, w, h);
    assert forall|i: int| 0 <= i < c.len() implies #[trigger] c[i] == shot.pixels@[i] by {
        if w > 0 {
            vstd::arithmetic::div_mod::lemma_fundamental_div_mod(i, w * 4);
            assert((i / (w * 4)) * w * 4 == (w * 4) * (i / (w * 4))) by (nonlinear_arith);
        } else {
            assert(w * h * 4 == 0) by (nonlinear_arith)
                requires
                    w == 0,
            ;
        }
    }
    assert(c =~= shot.pixels@);
}

/// Law: cropping a crop is one crop of the full image. Cutting the
/// rectangle `inner` out of the `outer` crop gives the same pixels as cutting
/// the rectangle at `outer`'s origin plus `inner`'s origin, of `inner`'s size,
/// straight out of the image.
pub proof fn lemma_crop_of_crop(
    src: Seq<u8>,
    src_width: int,
    src_height: int,
    outer: Selection,
    inner: Selection,
)
    requires
        src_width >= 0,
        src.len() == src_width * src_height * 4,
        outer.fits(src_width, src_height),
        inner.fits(outer.width as int, outer.height as int),
    ensures
        crop_pixels(
            crop_pixels(
                src,
                src_width,
                outer.x as int,
                outer.y as int,
                outer.width as int,
                outer.height as int,
            ),
            outer.width as int,
            inner.x as int,
            inner.y as int,
            inner.width as int,
            inner.height as int,
        ) == crop_pixels(
            src,
            src_width,
            outer.x + inner.x,
            outer.y + inner.y,
            inner.width as int,
            inner.height as int,
        ),
{
    let (ax, ay, aw, ah) = (outer.x as int, outer.y as int, outer.width as int, outer.height as int);
    let (bx, by, bw, bh) = (inner.x as int, inner.y as int, inner.width as int, inner.height as int);
    let mid = crop_pixels(src, src_width, ax, ay, aw, ah);
    let lhs = crop_pixels(mid, aw, bx, by, bw, bh);
    let rhs = crop_pixels(src, src_width, ax + bx, ay + by, bw, bh);
    assert forall|i: int| 0 <= i < lhs.len() implies #[trigger] lhs[i] == rhs[i] by {
        let r = i / (bw * 4);
        let c = i % (bw * 4);
        assert(bw > 0) by (nonlinear_arith)
            requires
                0 <= i < bw * bh * 4,
                bw >= 0,
                bh >= 0,
        ;
        vstd::arithmetic::div_mod::lemma_fundamental_div_mod(i, bw * 4);
        assert(0 <= c < bw * 4);
        assert(0 <= r < bh) by (nonlinear_arith)
            requires
                i == (bw * 4) * r + c,
                0 <= c < bw * 4,
                0 <= i < bw * bh * 4,
                bw > 0,
        ;
        let j = ((by + r) * aw + bx) * 4 + c;
        assert(aw > 0);
        lemma_crop_index(aw, by + r, bx * 4 + c);
        assert(j == (by + r) * (aw * 4) + (bx * 4 + c)) by (nonlinear_arith)
            requires
                j == ((by + r) * aw + bx) * 4 + c,
        ;
        assert(0 <= j < aw * ah * 4) by (nonlinear_arith)
            requires
                j == (by + r) * (aw * 4) + (bx * 4 + c),
                0 <= by + r < ah,
                0 <= bx * 4 + c < aw * 4,
        ;
    }
    assert(lhs =~= rhs);
}

/// Law: a crop is the image seen through the selection. Byte `c` of pixel
/// (`i`, `j`) of the crop of the `w` x `h` rectangle at (`x`, `y`) is byte
/// `c` of pixel (`x + i`, `y + j`) of the image.
pub proof fn lemma_crop_pixel(
    src: Seq<u8>,
    src_width: int,
    x: int,
    y: int,
    w: int,
    h: int,
    i: int,
    j: int,
    c: int,
)
    requires
        0 <= i < w,
        0 <= j < h,
        0 <= c < 4,
    ensures
        0 <= (j * w + i) * 4 + c < crop_pixels(src, src_width, x, y, w, h).len(),
        crop_pixels(src, src_width, x, y, w, h)[(j * w + i) * 4 + c] == src[((y + j) * src_width
            + x + i) * 4 + c],
{
    let k = (j * w + i) * 4 + c;
    assert(k == j * (w * 4) + (i * 4 + c)) by (nonlinear_arith)
        requires
            k == (j * w + i) * 4 + c,
    ;
    lemma_fundamental_div_mod_converse(k, w * 4, j, i * 4 + c);
    assert(0 <= k < w * h * 4) by (nonlinear_arith)
        requires
            k == j * (w * 4) + (i * 4 + c),
            0 <= i < w,
            0 <= j < h,
            0 <= c < 4,
    ;
    assert(((y + j) * src_width + x) * 4 + (i * 4 + c) == ((y + j) * src_width + x + i) * 4 + c)
        by (nonlinear_arith);
}

} // verus!
