//! A drawing surface for the toast: alpha blending into BGRA pixels, and a
//! 5x7 dot-matrix font for the few characters the toast and the size label
//! use (the digits, `x`, `S` and `E`).
use vstd::prelude::*;
use vstd::arithmetic::power2::{pow2, lemma2_to64};
use vstd::utf8::encode_utf8;
use vstd::arithmetic::div_mod::{lemma_fundamental_div_mod, lemma_fundamental_div_mod_converse};
use crate::render::{px_index, lemma_px_index, lemma_byte_of_pixel};

verus! {

/// A drawing surface: BGRA, row-major, `width` x `height` pixels. This is the
/// memory order of wl_shm's 8888 formats on a little-endian machine.
pub struct Canvas<'a> {
    pub data: &'a mut [u8],
    pub width: i32,
    pub height: i32,
}

/// `src` over `dst` with opacity `alpha`/255, rounded down.
pub open spec fn mix(src: u8, dst: u8, alpha: u8) -> u8 {
    ((src * alpha + dst * (255 - alpha)) / 255) as u8
}

/// The alpha byte after blending with opacity `alpha` over alpha `dst`:
/// `alpha + dst * (255 - alpha) / 255`, at most 255.
pub open spec fn mix_alpha(alpha: u8, dst: u8) -> u8 {
    let v = alpha + dst * (255 - alpha) / 255;
    (if v > 255 {
        255
    } else {
        v
    }) as u8
}

/// Byte `c` (B, G, R, A) of the pixel at `base` after blending the colour
/// `rgb` over it with opacity `alpha`.
pub open spec fn blend_byte(data: Seq<u8>, base: int, c: int, rgb: (u8, u8, u8), alpha: u8) -> u8 {
    if c == 0 {
        mix(rgb.2, data[base], alpha)
    } else if c == 1 {
        mix(rgb.1, data[base + 1], alpha)
    } else if c == 2 {
        mix(rgb.0, data[base + 2], alpha)
    } else {
        mix_alpha(alpha, data[base + 3])
    }
}

/// The pixel (`x`, `y`) lies inside a `width` x `height` surface.
pub open spec fn inside(width: int, height: int, x: int, y: int) -> bool {
    0 <= x < width && 0 <= y < height
}

/// The bytes of a `width`-wide surface after blending `rgb` with opacity
/// `alpha` into pixel (`x`, `y`): unchanged when the pixel is outside the
/// surface or `alpha` is 0; otherwise only that pixel's four bytes change.
pub open spec fn canvas_blend(
    data: Seq<u8>,
    width: int,
    height: int,
    x: int,
    y: int,
    rgb: (u8, u8, u8),
    alpha: u8,
) -> Seq<u8> {
    if !inside(width, height, x, y) || alpha == 0 {
        data
    } else {
        let b = px_index(width, x, y, 0);
        Seq::new(
            data.len(),
            |j: int|
                if b <= j < b + 4 {
                    blend_byte(data, b, j - b, rgb, alpha)
                } else {
                    data[j]
                },
        )
    }
}

impl<'a> Canvas<'a> {
    /// The surface holds `width * height` pixels, addressable in 32 bits.
    pub open spec fn wf(&self) -> bool {
        &&& 0 <= self.width
        &&& 0 <= self.height
        &&& self.width * self.height * 4 <= i32::MAX
        &&& self.data@.len() >= self.width * self.height * 4
    }

    /// Blends the colour `rgb` with opacity `alpha`/255 into pixel (`x`, `y`)
    /// (see `canvas_blend`). A pixel outside the surface, or `alpha` 0, is a
    /// no-op.
    pub fn blend(&mut self, x: i32, y: i32, rgb: (u8, u8, u8), alpha: u8)
        requires
            old(self).wf(),
        ensures
            final(self).width == old(self).width,
            final(self).height == old(self).height,
            final(self).data@ == canvas_blend(
                old(self).data@,
                old(self).width as int,
                old(self).height as int,
                x as int,
                y as int,
                rgb,
                alpha,
            ),
    {
        if x < 0 || y < 0 || x >= self.width || y >= self.height || alpha == 0 {
            return;
        }
        proof {
            assert(0 <= y * self.width) by (nonlinear_arith)
                requires
                    0 <= y,
                    0 <= self.width,
            ;
            assert((y * self.width + x) * 4 + 4 <= self.width * self.height * 4) by (nonlinear_arith)
                requires
                    0 <= x < self.width,
                    0 <= y < self.height,
            ;
        }
        let i = ((y * self.width + x) * 4) as usize;
        let a = alpha as u32;
        let inv = 255 - alpha as u32;
        let ghost old_data = self.data@;
        let b0 = mix_channel(rgb.2, self.data[i], a, inv);
        self.data[i] = b0;
        let b1 = mix_channel(rgb.1, self.data[i + 1], a, inv);
        self.data[i + 1] = b1;
        let b2 = mix_channel(rgb.0, self.data[i + 2], a, inv);
        self.data[i + 2] = b2;
        let dst_a = self.data[i + 3] as u32;
        assert(dst_a * inv / 255 <= 255) by (nonlinear_arith)
            requires
                dst_a <= 255,
                inv <= 255,
        ;
        let v = a + dst_a * inv / 255;
        self.data[i + 3] = (if v > 255 {
            255
        } else {
            v
        }) as u8;
        assert(self.data@ =~= canvas_blend(
            old_data,
            self.width as int,
            self.height as int,
            x as int,
            y as int,
            rgb,
            alpha,
        ));
    }
}

fn mix_channel(channel: u8, dst: u8, a: u32, inv: u32) -> (r: u8)
    requires
        a <= 255,
        a + inv == 255,
    ensures
        r == mix(channel, dst, a as u8),
{
    let c = channel as u32;
    let d = dst as u32;
    assert(c * a + d * inv <= 255 * 255) by (nonlinear_arith)
        requires
            c <= 255,
            d <= 255,
            a + inv == 255,
            a <= 255,
    ;
    ((c * a + d * inv) / 255) as u8
}

/// Law: an opaque blend (alpha 255) paints exactly the given colour, with
/// alpha 255; a transparent one (alpha 0) changes nothing.
pub proof fn lemma_opaque_blend_paints_colour(src: u8, dst: u8)
    ensures
        mix(src, dst, 255) == src,
        mix_alpha(255, dst) == 255,
        mix(src, dst, 0) == dst,
{
}

/// The 5x7 dot-matrix rows of a character (bit 4 is the leftmost column), for
/// the characters that have one: the digits, `x`, `S` and `E`.
pub open spec fn glyph(ch: char) -> Option<Seq<u8>> {
    if ch == '0' {
        Some(seq![0b01110u8, 0b10001, 0b10011, 0b10101, 0b11001, 0b10001, 0b01110])
    } else if ch == '1' {
        Some(seq![0b00100u8, 0b01100, 0b00100, 0b00100, 0b00100, 0b00100, 0b01110])
    } else if ch == '2' {
        Some(seq![0b01110u8, 0b10001, 0b00001, 0b00010, 0b00100, 0b01000, 0b11111])
    } else if ch == '3' {
        Some(seq![0b11111u8, 0b00010, 0b00100, 0b00010, 0b00001, 0b10001, 0b01110])
    } else if ch == '4' {
        Some(seq![0b00010u8, 0b00110, 0b01010, 0b10010, 0b11111, 0b00010, 0b00010])
    } else if ch == '5' {
        Some(seq![0b11111u8, 0b10000, 0b11110, 0b00001, 0b00001, 0b10001, 0b01110])
    } else if ch == '6' {
        Some(seq![0b00110u8, 0b01000, 0b10000, 0b11110, 0b10001, 0b10001, 0b01110])
    } else if ch == '7' {
        Some(seq![0b11111u8, 0b00001, 0b00010, 0b00100, 0b01000, 0b01000, 0b01000])
    } else if ch == '8' {
        Some(seq![0b01110u8, 0b10001, 0b10001, 0b01110, 0b10001, 0b10001, 0b01110])
    } else if ch == '9' {
        Some(seq![0b01110u8, 0b10001, 0b10001, 0b01111, 0b00001, 0b00010, 0b01100])
    } else if ch == 'x' {
        Some(seq![0b00000u8, 0b10001, 0b01010, 0b00100, 0b01010, 0b10001, 0b00000])
    } else if ch == 'S' {
        Some(seq![0b01110u8, 0b10001, 0b10000, 0b01110, 0b00001, 0b10001, 0b01110])
    } else if ch == 'E' {
        Some(seq![0b11111u8, 0b10000, 0b10000, 0b11110, 0b10000, 0b10000, 0b11111])
    } else {
        None
    }
}

/// The rows of a glyph read as one number, five bits per row, top row first.
spec fn rows_key(rows: Seq<u8>) -> int {
    ((((((rows[0] * 32 + rows[1]) * 32 + rows[2]) * 32 + rows[3]) * 32 + rows[4]) * 32 + rows[5])
        * 32 + rows[6])
}

/// Law: the font tells its characters apart. Every glyph is seven rows of
/// five dots, and no two characters share a glyph.
pub proof fn lemma_glyphs_distinct(a: char, b: char)
    requires
        a != b,
        glyph(a) is Some,
    ensures
        glyph(a) != glyph(b),
        glyph(a).unwrap().len() == 7,
        forall|i: int| 0 <= i < 7 ==> #[trigger] glyph(a).unwrap()[i] < 32,
{
    if glyph(a) == glyph(b) {
        assert(rows_key(glyph(a).unwrap()) == rows_key(glyph(b).unwrap()));
    }
}

/// Looks up a character's dot-matrix rows (see `glyph`).
fn glyph_rows(ch: char) -> (r: Option<[u8; 7]>)
    ensures
        r is Some <==> glyph(ch) is Some,
        r matches Some(rows) ==> glyph(ch) == Some(rows@),
{
    let r: Option<[u8; 7]> = if ch == '0' {
        Some([0b01110, 0b10001, 0b10011, 0b10101, 0b11001, 0b10001, 0b01110])
    } else if ch == '1' {
        Some([0b00100, 0b01100, 0b00100, 0b00100, 0b00100, 0b00100, 0b01110])
    } else if ch == '2' {
        Some([0b01110, 0b10001, 0b00001, 0b00010, 0b00100, 0b01000, 0b11111])
    } else if ch == '3' {
        Some([0b11111, 0b00010, 0b00100, 0b00010, 0b00001, 0b10001, 0b01110])
    } else if ch == '4' {
        Some([0b00010, 0b00110, 0b01010, 0b10010, 0b11111, 0b00010, 0b00010])
    } else if ch == '5' {
        Some([0b11111, 0b10000, 0b11110, 0b00001, 0b00001, 0b10001, 0b01110])
    } else if ch == '6' {
        Some([0b00110, 0b01000, 0b10000, 0b11110, 0b10001, 0b10001, 0b01110])
    } else if ch == '7' {
        Some([0b11111, 0b00001, 0b00010, 0b00100, 0b01000, 0b01000, 0b01000])
    } else if ch == '8' {
        Some([0b01110, 0b10001, 0b10001, 0b01110, 0b10001, 0b10001, 0b01110])
    } else if ch == '9' {
        Some([0b01110, 0b10001, 0b10001, 0b01111, 0b00001, 0b00010, 0b01100])
    } else if ch == 'x' {
        Some([0b00000, 0b10001, 0b01010, 0b00100, 0b01010, 0b10001, 0b00000])
    } else if ch == 'S' {
        Some([0b01110, 0b10001, 0b10000, 0b01110, 0b00001, 0b10001, 0b01110])
    } else if ch == 'E' {
        Some([0b11111, 0b10000, 0b10000, 0b11110, 0b10000, 0b10000, 0b11111])
    } else {
        None
    };
    proof {
        if let Some(rows) = r {
            assert(glyph(ch) == Some(rows@));
        }
    }
    r
}

proof fn lemma_chars_at_most_bytes(chars: Seq<char>)
    ensures
        chars.len() <= encode_utf8(chars).len(),
    decreases chars.len(),
{
    if chars.len() > 0 {
        lemma_chars_at_most_bytes(chars.drop_first());
    }
}

/// The number of characters of `text`.
fn count_chars(text: &str) -> (n: usize)
    ensures
        n == text@.len(),
{
    let bytes = text.as_bytes().len();
    proof {
        lemma_chars_at_most_bytes(text@);
    }
    let mut n: usize = 0;
    for ch in it: text.chars()
        invariant
            n == it.index(),
            it.seq() == text@,
            text@.len() <= bytes,
    {
        n = n + 1;
    }
    n
}

/// The width in pixels of `text` drawn at `scale`: each character takes 5
/// columns plus 1 column of spacing, without spacing after the last one.
pub fn text_width(text: &str, scale: i32) -> (r: i32)
    requires
        text@.len() * 6 <= i32::MAX,
        i32::MIN <= (text@.len() * 6 - 1) * scale <= i32::MAX,
    ensures
        r == (text@.len() * 6 - 1) * scale,
{
    (count_chars(text) as i32 * 6 - 1) * scale
}


/// Bit `rx` of a glyph row is set; column 0 is the leftmost, bit 4.
pub open spec fn glyph_bit(row: u8, rx: int) -> bool {
    row & (1u8 << ((4 - rx) as u8)) != 0
}

/// Law: a glyph row reads left to right as a binary number, most significant
/// digit first: dot `rx` (0 is the leftmost of the five) is lit exactly when
/// binary digit `4 - rx` of the row is 1.
pub proof fn lemma_glyph_bit_leftmost_first(row: u8, rx: int)
    requires
        0 <= rx < 5,
    ensures
        glyph_bit(row, rx) <==> (row as nat / pow2((4 - rx) as nat)) % 2 == 1,
{
    lemma2_to64();
    let k = (4 - rx) as u8;
    let p = pow2((4 - rx) as nat);
    if rx == 0 {
        assert(k == 4 && p == 16);
        assert(row & (1u8 << 4u8) != 0 <==> (row / 16) % 2 == 1) by (bit_vector);
    } else if rx == 1 {
        assert(k == 3 && p == 8);
        assert(row & (1u8 << 3u8) != 0 <==> (row / 8) % 2 == 1) by (bit_vector);
    } else if rx == 2 {
        assert(k == 2 && p == 4);
        assert(row & (1u8 << 2u8) != 0 <==> (row / 4) % 2 == 1) by (bit_vector);
    } else if rx == 3 {
        assert(k == 1 && p == 2);
        assert(row & (1u8 << 1u8) != 0 <==> (row / 2) % 2 == 1) by (bit_vector);
    } else {
        assert(k == 0 && p == 1);
        assert(row & (1u8 << 0u8) != 0 <==> row % 2 == 1) by (bit_vector);
    }
}

/// Where pixel (`px`, `py`) falls in text drawn at (`x`, `y`) with `scale`
/// (`s`): the character `k` (each takes 6 * s columns), the glyph row `ry`
/// and column `rx` (each s pixels square), and the offsets `sy`, `sx` inside
/// that square, as (k, ry, rx, sy, sx).
pub open spec fn text_cell(x: int, y: int, s: int, px: int, py: int) -> (int, int, int, int, int) {
    let dx = px - x;
    let dy = py - y;
    (dx / (6 * s), dy / s, (dx % (6 * s)) / s, dy % s, (dx % (6 * s)) % s)
}

/// Pixel (`px`, `py`) is lit by text `t` drawn at (`x`, `y`) with scale `s`:
/// it falls on a lit dot of the glyph of some character of `t` (characters
/// without a glyph leave their place blank).
pub open spec fn text_covers(t: Seq<char>, x: int, y: int, s: int, px: int, py: int) -> bool {
    let c = text_cell(x, y, s, px, py);
    &&& s > 0
    &&& x <= px
    &&& y <= py
    &&& c.0 < t.len()
    &&& c.1 < 7
    &&& c.2 < 5
    &&& glyph(t[c.0]) is Some
    &&& glyph_bit(glyph(t[c.0])->0[c.1], c.2)
}

spec fn lex_lt(a: (int, int, int, int, int), b: (int, int, int, int, int)) -> bool {
    ||| a.0 < b.0
    ||| a.0 == b.0 && a.1 < b.1
    ||| a.0 == b.0 && a.1 == b.1 && a.2 < b.2
    ||| a.0 == b.0 && a.1 == b.1 && a.2 == b.2 && a.3 < b.3
    ||| a.0 == b.0 && a.1 == b.1 && a.2 == b.2 && a.3 == b.3 && a.4 < b.4
}

/// `data` is `old` with the lit pixels of the text blended in, for the
/// pixels whose place (see `text_cell`) comes before `pos`.
spec fn text_drawn_upto(
    old: Seq<u8>,
    data: Seq<u8>,
    w: int,
    h: int,
    t: Seq<char>,
    x: int,
    y: int,
    s: int,
    rgb: (u8, u8, u8),
    alpha: u8,
    pos: (int, int, int, int, int),
) -> bool {
    &&& data.len() == old.len()
    &&& forall|j: int| w * h * 4 <= j < data.len() ==> #[trigger] data[j] == old[j]
    &&& forall|px: int, py: int, ch: int|
        0 <= px < w && 0 <= py < h && 0 <= ch < 4 ==> #[trigger] data[px_index(w, px, py, ch)] == if alpha
            != 0 && text_covers(t, x, y, s, px, py) && lex_lt(text_cell(x, y, s, px, py), pos) {
            blend_byte(old, px_index(w, px, py, 0), ch, rgb, alpha)
        } else {
            old[px_index(w, px, py, ch)]
        }
}

/// The place of the pixel drawn for character `k`, glyph row `ry` and
/// column `rx`, offsets `sy`, `sx`, is exactly that.
proof fn lemma_cell_of_dot(x: int, y: int, s: int, k: int, ry: int, rx: int, sy: int, sx: int)
    requires
        s > 0,
        k >= 0,
        ry >= 0,
        0 <= rx < 6,
        0 <= sy < s,
        0 <= sx < s,
    ensures
        text_cell(x, y, s, x + 6 * s * k + rx * s + sx, y + ry * s + sy) == (k, ry, rx, sy, sx),
{
    let r = rx * s + sx;
    assert(0 <= r < 6 * s) by (nonlinear_arith)
        requires
            r == rx * s + sx,
            0 <= rx < 6,
            0 <= sx < s,
    ;
    assert(6 * s * k + r == k * (6 * s) + r) by (nonlinear_arith);
    lemma_fundamental_div_mod_converse(6 * s * k + r, 6 * s, k, r);
    lemma_fundamental_div_mod_converse(r, s, rx, sx);
    lemma_fundamental_div_mod_converse(ry * s + sy, s, ry, sy);
}

/// Every pixel right of and below the text origin has a place, and the
/// place gives the pixel back.
proof fn lemma_cell_parts(x: int, y: int, s: int, px: int, py: int)
    requires
        s > 0,
        x <= px,
        y <= py,
    ensures
        ({
            let c = text_cell(x, y, s, px, py);
            &&& c.0 >= 0
            &&& c.1 >= 0
            &&& 0 <= c.2 < 6
            &&& 0 <= c.3 < s
            &&& 0 <= c.4 < s
            &&& px == x + 6 * s * c.0 + c.2 * s + c.4
            &&& py == y + c.1 * s + c.3
        }),
{
    let dx = px - x;
    let dy = py - y;
    lemma_fundamental_div_mod(dx, 6 * s);
    let q = dx / (6 * s);
    let r = dx % (6 * s);
    lemma_fundamental_div_mod(r, s);
    lemma_fundamental_div_mod(dy, s);
    assert(q >= 0) by (nonlinear_arith)
        requires
            dx == (6 * s) * q + r,
            0 <= r < 6 * s,
            dx >= 0,
            s > 0,
    ;
    assert(0 <= r / s < 6) by (nonlinear_arith)
        requires
            r == s * (r / s) + r % s,
            0 <= r % s < s,
            0 <= r < 6 * s,
            s > 0,
    ;
    assert(dy / s >= 0) by (nonlinear_arith)
        requires
            dy == s * (dy / s) + dy % s,
            0 <= dy % s < s,
            dy >= 0,
            s > 0,
    ;
    assert(6 * s * q == (6 * s) * q) by (nonlinear_arith);
    assert((r / s) * s == s * (r / s)) by (nonlinear_arith);
    assert((dy / s) * s == s * (dy / s)) by (nonlinear_arith);
}

/// Progress can be restated at an equivalent position: one before which
/// exactly the same lit pixels lie.
proof fn lemma_progress_same(
    old: Seq<u8>,
    data: Seq<u8>,
    w: int,
    h: int,
    t: Seq<char>,
    x: int,
    y: int,
    s: int,
    rgb: (u8, u8, u8),
    alpha: u8,
    pos1: (int, int, int, int, int),
    pos2: (int, int, int, int, int),
)
    requires
        text_drawn_upto(old, data, w, h, t, x, y, s, rgb, alpha, pos1),
        forall|px: int, py: int|
            #[trigger] text_covers(t, x, y, s, px, py) ==> (lex_lt(text_cell(x, y, s, px, py), pos1)
                <==> lex_lt(text_cell(x, y, s, px, py), pos2)),
    ensures
        text_drawn_upto(old, data, w, h, t, x, y, s, rgb, alpha, pos2),
{
    assert forall|px: int, py: int, ch: int|
        0 <= px < w && 0 <= py < h && 0 <= ch < 4 implies #[trigger] data[px_index(w, px, py, ch)]
        == if alpha != 0 && text_covers(t, x, y, s, px, py) && lex_lt(
        text_cell(x, y, s, px, py),
        pos2,
    ) {
        blend_byte(old, px_index(w, px, py, 0), ch, rgb, alpha)
    } else {
        old[px_index(w, px, py, ch)]
    } by {
        if text_covers(t, x, y, s, px, py) {
        }
    }
}

/// Blending the dot at place `pos` moves the progress to just after it.
proof fn lemma_blend_dot(
    old: Seq<u8>,
    before: Seq<u8>,
    after: Seq<u8>,
    w: int,
    h: int,
    t: Seq<char>,
    x: int,
    y: int,
    s: int,
    rgb: (u8, u8, u8),
    alpha: u8,
    k: int,
    ry: int,
    rx: int,
    sy: int,
    sx: int,
)
    requires
        0 <= w,
        0 <= h,
        old.len() >= w * h * 4,
        text_drawn_upto(old, before, w, h, t, x, y, s, rgb, alpha, (k, ry, rx, sy, sx)),
        s > 0,
        0 <= k < t.len(),
        0 <= ry < 7,
        0 <= rx < 5,
        0 <= sy < s,
        0 <= sx < s,
        glyph(t[k]) is Some,
        glyph_bit(glyph(t[k])->0[ry], rx),
        after == canvas_blend(
            before,
            w,
            h,
            x + 6 * s * k + rx * s + sx,
            y + ry * s + sy,
            rgb,
            alpha,
        ),
    ensures
        text_drawn_upto(old, after, w, h, t, x, y, s, rgb, alpha, (k, ry, rx, sy, sx + 1)),
{
    let bx = x + 6 * s * k + rx * s + sx;
    let by = y + ry * s + sy;
    assert(bx >= x && by >= y) by (nonlinear_arith)
        requires
            bx == x + 6 * s * k + rx * s + sx,
            by == y + ry * s + sy,
            s > 0,
            k >= 0,
            rx >= 0,
            ry >= 0,
            sx >= 0,
            sy >= 0,
    ;
    lemma_cell_of_dot(x, y, s, k, ry, rx, sy, sx);
    let pos = (k, ry, rx, sy, sx);
    let pos2 = (k, ry, rx, sy, sx + 1);
    assert forall|j: int| w * h * 4 <= j < after.len() implies #[trigger] after[j] == old[j] by {
        if inside(w, h, bx, by) && alpha != 0 {
            lemma_px_index(w, h, bx, by, 3, bx, by, 3);
        }
        assert(before[j] == old[j]);
    }
    assert forall|px: int, py: int, ch: int|
        0 <= px < w && 0 <= py < h && 0 <= ch < 4 implies #[trigger] after[px_index(w, px, py, ch)]
        == if alpha != 0 && text_covers(t, x, y, s, px, py) && lex_lt(
        text_cell(x, y, s, px, py),
        pos2,
    ) {
        blend_byte(old, px_index(w, px, py, 0), ch, rgb, alpha)
    } else {
        old[px_index(w, px, py, ch)]
    } by {
        let i = px_index(w, px, py, ch);
        lemma_px_index(w, h, px, py, ch, px, py, ch);
        let same = px == bx && py == by;
        if text_covers(t, x, y, s, px, py) {
            lemma_cell_parts(x, y, s, px, py);
            if text_cell(x, y, s, px, py) == pos {
                assert(same);
            }
        }
        if same {
            assert(text_covers(t, x, y, s, px, py));
        }
        if inside(w, h, bx, by) && alpha != 0 {
            let b = px_index(w, bx, by, 0);
            if b <= i < b + 4 {
                lemma_px_index(w, h, px, py, ch, bx, by, i - b);
                assert(same);
            }
            if same {
                assert forall|c2: int| 0 <= c2 < 4 implies #[trigger] before[b + c2] == old[b + c2] by {
                    lemma_px_index(w, h, bx, by, c2, bx, by, c2);
                    assert(before[px_index(w, bx, by, c2)] == old[px_index(w, bx, by, c2)]);
                }
                assert(blend_byte(before, b, ch, rgb, alpha) == blend_byte(old, b, ch, rgb, alpha));
            }
        }
        assert(before[i] == if alpha != 0 && text_covers(t, x, y, s, px, py) && lex_lt(
            text_cell(x, y, s, px, py),
            pos,
        ) {
            blend_byte(old, px_index(w, px, py, 0), ch, rgb, alpha)
        } else {
            old[i]
        });
    }
}

/// `6 * s * k` lies between 0 and `6 * s * n` for `0 <= k <= n`.
proof fn lemma_between(s: int, k: int, n: int)
    requires
        0 <= k <= n,
    ensures
        s >= 0 ==> 0 <= 6 * s * k <= 6 * s * n,
        s < 0 ==> 6 * s * n <= 6 * s * k <= 0,
{
    if s >= 0 {
        assert(0 <= 6 * s * k <= 6 * s * n) by (nonlinear_arith)
            requires
                s >= 0,
                0 <= k <= n,
        ;
    } else {
        assert(6 * s * n <= 6 * s * k <= 0) by (nonlinear_arith)
            requires
                s < 0,
                0 <= k <= n,
        ;
    }
}

/// `new` is the `w` x `h` surface `old` with text `t` drawn at (`x`, `y`)
/// with scale `s`: every lit pixel (see `text_covers`) inside the surface
/// has `rgb` blended in with opacity `alpha`, once; every other byte,
/// including those past the image, is unchanged.
pub open spec fn text_drawn(
    old: Seq<u8>,
    new: Seq<u8>,
    w: int,
    h: int,
    t: Seq<char>,
    x: int,
    y: int,
    s: int,
    rgb: (u8, u8, u8),
    alpha: u8,
) -> bool {
    &&& new.len() == old.len()
    &&& forall|j: int| w * h * 4 <= j < old.len() ==> #[trigger] new[j] == old[j]
    &&& forall|px: int, py: int, ch: int|
        inside(w, h, px, py) && 0 <= ch < 4 ==> #[trigger] new[px_index(w, px, py, ch)] == if alpha
            != 0 && text_covers(t, x, y, s, px, py) {
            blend_byte(old, px_index(w, px, py, 0), ch, rgb, alpha)
        } else {
            old[px_index(w, px, py, ch)]
        }
}

/// Law: text stays in its box. A lit pixel of `t` drawn at (`x`, `y`) with
/// scale `s` lies in [x, x + text_width) x [y, y + 7s), where text_width is
/// (6 * len - 1) * s; with a scale of 0 or less nothing is lit.
pub proof fn lemma_text_box(t: Seq<char>, x: int, y: int, s: int, px: int, py: int)
    ensures
        text_covers(t, x, y, s, px, py) ==> s > 0 && x <= px < x + (t.len() * 6 - 1) * s && y <= py
            < y + 7 * s,
{
    if text_covers(t, x, y, s, px, py) {
        lemma_cell_parts(x, y, s, px, py);
        let c = text_cell(x, y, s, px, py);
        assert(6 * s * c.0 + c.2 * s + c.4 < (t.len() * 6 - 1) * s) by (nonlinear_arith)
            requires
                s > 0,
                0 <= c.0 < t.len(),
                0 <= c.2 < 5,
                0 <= c.4 < s,
        ;
        assert(c.1 * s + c.3 < 7 * s) by (nonlinear_arith)
            requires
                s > 0,
                0 <= c.1 < 7,
                0 <= c.3 < s,
        ;
    }
}

/// Text `a + b` lights exactly the pixels that `a` lights and those that `b`
/// lights when drawn 6 * s * |a| columns further right, and no pixel is lit
/// by both: every character, with a glyph or without one, takes 6 * s columns.
proof fn lemma_covers_concat(a: Seq<char>, b: Seq<char>, x: int, y: int, s: int, px: int, py: int)
    ensures
        text_covers(a + b, x, y, s, px, py) <==> (text_covers(a, x, y, s, px, py) || text_covers(
            b,
            x + 6 * s * a.len(),
            y,
            s,
            px,
            py,
        )),
        !(text_covers(a, x, y, s, px, py) && text_covers(b, x + 6 * s * a.len(), y, s, px, py)),
{
    let xb = x + 6 * s * a.len();
    if s > 0 && x <= px && y <= py {
        lemma_cell_parts(x, y, s, px, py);
        let c = text_cell(x, y, s, px, py);
        let k = c.0;
        assert(6 * s * k + c.2 * s + c.4 < 6 * s * (k + 1)) by (nonlinear_arith)
            requires
                s > 0,
                0 <= c.2 < 6,
                0 <= c.4 < s,
        ;
        if k < a.len() {
            assert((a + b)[k] == a[k]);
            assert(6 * s * (k + 1) <= 6 * s * a.len()) by (nonlinear_arith)
                requires
                    s > 0,
                    k + 1 <= a.len(),
            ;
            assert(px < xb);
        } else {
            assert(6 * s * k == 6 * s * a.len() + 6 * s * (k - a.len())) by (nonlinear_arith);
            assert(6 * s * a.len() <= 6 * s * k) by (nonlinear_arith)
                requires
                    s > 0,
                    a.len() <= k,
            ;
            lemma_cell_of_dot(xb, y, s, k - a.len(), c.1, c.2, c.3, c.4);
            assert(px == xb + 6 * s * (k - a.len()) + c.2 * s + c.4);
            if k < a.len() + b.len() {
                assert((a + b)[k] == b[k - a.len()]);
            }
        }
    } else if s > 0 && px < x {
        assert(6 * s * a.len() >= 0) by (nonlinear_arith)
            requires
                s > 0,
        ;
    }
}

/// Law: drawing `a + b` is drawing `a`, then drawing `b` 6 * s * |a|
/// columns further right.
pub proof fn lemma_text_concat(
    old: Seq<u8>,
    mid: Seq<u8>,
    new: Seq<u8>,
    whole: Seq<u8>,
    w: int,
    h: int,
    a: Seq<char>,
    b: Seq<char>,
    x: int,
    y: int,
    s: int,
    rgb: (u8, u8, u8),
    alpha: u8,
)
    requires
        0 <= w,
        0 <= h,
        old.len() >= w * h * 4,
        text_drawn(old, mid, w, h, a, x, y, s, rgb, alpha),
        text_drawn(mid, new, w, h, b, x + 6 * s * a.len(), y, s, rgb, alpha),
        text_drawn(old, whole, w, h, a + b, x, y, s, rgb, alpha),
    ensures
        whole == new,
{
    let xb = x + 6 * s * a.len();
    assert forall|j: int| 0 <= j < whole.len() implies #[trigger] whole[j] == new[j] by {
        if j < w * h * 4 {
            lemma_byte_of_pixel(w, h, j);
            let px = (j / 4) % w;
            let py = (j / 4) / w;
            let ch = j % 4;
            let base = px_index(w, px, py, 0);
            lemma_covers_concat(a, b, x, y, s, px, py);
            assert(whole[px_index(w, px, py, ch)] == if alpha != 0 && text_covers(a + b, x, y, s, px, py) {
                blend_byte(old, base, ch, rgb, alpha)
            } else {
                old[j]
            });
            assert(new[px_index(w, px, py, ch)] == if alpha != 0 && text_covers(b, xb, y, s, px, py) {
                blend_byte(mid, base, ch, rgb, alpha)
            } else {
                mid[j]
            });
            assert(mid[px_index(w, px, py, ch)] == if alpha != 0 && text_covers(a, x, y, s, px, py) {
                blend_byte(old, base, ch, rgb, alpha)
            } else {
                old[j]
            });
            if alpha != 0 && text_covers(b, xb, y, s, px, py) {
                assert forall|c2: int| 0 <= c2 < 4 implies #[trigger] mid[base + c2] == old[base + c2] by {
                    assert(px_index(w, px, py, c2) == base + c2);
                    assert(mid[px_index(w, px, py, c2)] == old[px_index(w, px, py, c2)]);
                }
                assert(blend_byte(mid, base, ch, rgb, alpha) == blend_byte(old, base, ch, rgb, alpha));
            }
        }
    }
    assert(whole =~= new);
}

/// The colour byte `v` lies between `lo` and `hi`, in either order.
pub open spec fn between(v: u8, lo: u8, hi: u8) -> bool {
    (lo <= v <= hi) || (hi <= v <= lo)
}

/// Law: a blend never overshoots and never uncovers. Each colour byte ends
/// between its old value and the drawn colour; the alpha byte ends at least
/// at its old value and at least at the blend's opacity.
pub proof fn lemma_blend_bounds(src: u8, dst: u8, alpha: u8)
    ensures
        between(mix(src, dst, alpha), dst, src),
        mix_alpha(alpha, dst) >= dst,
        mix_alpha(alpha, dst) >= alpha,
{
    let a = alpha as int;
    let sv = src as int;
    let d = dst as int;
    let m = if sv < d { sv } else { d };
    let mm = if sv < d { d } else { sv };
    assert(m * 255 <= sv * a + d * (255 - a) <= mm * 255) by (nonlinear_arith)
        requires
            0 <= a <= 255,
            m <= sv <= mm,
            m <= d <= mm,
    ;
    assert(m <= (sv * a + d * (255 - a)) / 255 <= mm) by (nonlinear_arith)
        requires
            m * 255 <= sv * a + d * (255 - a) <= mm * 255,
    ;
    assert(a + d * (255 - a) / 255 >= d) by (nonlinear_arith)
        requires
            0 <= a <= 255,
            0 <= d <= 255,
    ;
}

/// Law: a colour byte of a blend is the weighted mean of the drawn colour
/// (weight `alpha`) and the old byte (weight `255 - alpha`), rounded down.
pub proof fn lemma_blend_colour_weighted_mean(src: u8, dst: u8, alpha: u8)
    ensures
        mix(src, dst, alpha) * 255 <= src * alpha + dst * (255 - alpha) < (mix(src, dst, alpha) + 1)
            * 255,
{
    let t = src * alpha + dst * (255 - alpha);
    assert(0 <= t <= 255 * 255) by (nonlinear_arith)
        requires
            t == src * alpha + dst * (255 - alpha),
            0 <= src <= 255,
            0 <= dst <= 255,
            0 <= alpha <= 255,
    ;
    lemma_fundamental_div_mod(t, 255);
}

/// Law: the alpha byte of a blend is source over destination: the
/// transparency left (255 minus the alpha byte) is the product of the
/// drawn colour's transparency and the pixel's, divided by 255 and rounded
/// up. So layering translucent paint makes a pixel more opaque: the result
/// exceeds the pixel's old alpha once the paint is opaque enough to count
/// (`alpha * (255 - dst) >= 255`), and exceeds the paint's own opacity once
/// the pixel is (`dst * (255 - alpha) >= 255`).
pub proof fn lemma_blend_alpha_source_over(alpha: u8, dst: u8)
    ensures
        (255 - mix_alpha(alpha, dst)) * 255 >= (255 - alpha) * (255 - dst),
        (255 - mix_alpha(alpha, dst)) * 255 < (255 - alpha) * (255 - dst) + 255,
        alpha * (255 - dst) >= 255 ==> mix_alpha(alpha, dst) > dst,
        dst * (255 - alpha) >= 255 ==> mix_alpha(alpha, dst) > alpha,
{
    let a = alpha as int;
    let d = dst as int;
    let p = d * (255 - a);
    let q = p / 255;
    lemma_fundamental_div_mod(p, 255);
    assert(0 <= p <= 255 * 255) by (nonlinear_arith)
        requires
            0 <= a <= 255,
            0 <= d <= 255,
            p == d * (255 - a),
    ;
    assert(q <= 255 - a) by (nonlinear_arith)
        requires
            0 <= a <= 255,
            0 <= d <= 255,
            p == d * (255 - a),
            q == p / 255,
    ;
    assert((255 - a) * (255 - d) == 255 * (255 - a) - p) by (nonlinear_arith)
        requires
            p == d * (255 - a),
    ;
    assert(a * (255 - d) >= 255 ==> p >= 255 * (d - a + 1)) by (nonlinear_arith)
        requires
            p == d * (255 - a),
    ;
}

/// Draws `text` at (`x`, `y`) in the 5x7 dot-matrix font, each dot a
/// `scale` x `scale` square, characters 6 dots apart; characters without a
/// glyph leave a blank. Every lit pixel (see `text_covers`) inside the
/// surface gets the colour `rgb` blended in with opacity `alpha`, once;
/// every other byte stays as it was.
pub fn draw_text(c: &mut Canvas, text: &str, x: i32, y: i32, scale: i32, rgb: (u8, u8, u8), alpha: u8)
    requires
        old(c).wf(),
        i32::MIN <= 6 * scale <= i32::MAX,
        i32::MIN <= x + 6 * scale * text@.len() <= i32::MAX,
        scale > 0 ==> y + 7 * scale <= i32::MAX,
    ensures
        final(c).width == old(c).width,
        final(c).height == old(c).height,
        text_drawn(
            old(c).data@,
            final(c).data@,
            old(c).width as int,
            old(c).height as int,
            text@,
            x as int,
            y as int,
            scale as int,
            rgb,
            alpha,
        ),
{
    let ghost old_data = c.data@;
    let ghost w = c.width as int;
    let ghost h = c.height as int;
    let ghost t = text@;
    let ghost s = scale as int;
    let ghost xi = x as int;
    let ghost yi = y as int;
    let ghost mut k: int = 0;
    let mut cx = x;
    proof {
        assert(text_drawn_upto(old_data, c.data@, w, h, t, xi, yi, s, rgb, alpha, (0, 0, 0, 0, 0)))
            by {
            assert forall|px: int, py: int| #[trigger]
                text_covers(t, xi, yi, s, px, py) implies !lex_lt(
                text_cell(xi, yi, s, px, py),
                (0, 0, 0, 0, 0),
            ) by {
                lemma_cell_parts(xi, yi, s, px, py);
            }
        }
    }
    for ch in it: text.chars()
        invariant
            it.seq() == t,
            t == text@,
            k == it.index(),
            0 <= k <= t.len(),
            c.wf(),
            c.width == w,
            c.height == h,
            old_data.len() >= w * h * 4,
            s == scale,
            xi == x,
            yi == y,
            i32::MIN <= 6 * scale <= i32::MAX,
            i32::MIN <= x + 6 * scale * t.len() <= i32::MAX,
            scale > 0 ==> y + 7 * scale <= i32::MAX,
            cx == x + 6 * scale * k,
            text_drawn_upto(old_data, c.data@, w, h, t, xi, yi, s, rgb, alpha, (k, 0, 0, 0, 0)),
    {
        proof {
            assert(k < t.len());
            lemma_between(s, k, t.len() as int);
            lemma_between(s, k + 1, t.len() as int);
        }
        if let Some(rows) = glyph_rows(ch) {
            let mut ry: usize = 0;
            while ry < 7
                invariant
                    0 <= k < t.len(),
                    ch == t[k],
                    glyph(t[k]) == Some(rows@),
                    c.wf(),
                    c.width == w,
                    c.height == h,
                    old_data.len() >= w * h * 4,
                    s == scale,
                    xi == x,
                    yi == y,
                    6 * scale <= i32::MAX,
                    i32::MIN <= x + 6 * scale * t.len() <= i32::MAX,
                    scale > 0 ==> y + 7 * scale <= i32::MAX,
                    cx == x + 6 * scale * k,
                    s >= 0 ==> 0 <= 6 * s * (k + 1) <= 6 * s * t.len(),
                    0 <= ry <= 7,
                    text_drawn_upto(
                        old_data,
                        c.data@,
                        w,
                        h,
                        t,
                        xi,
                        yi,
                        s,
                        rgb,
                        alpha,
                        (k, ry as int, 0, 0, 0),
                    ),
                decreases 7 - ry,
            {
                let row = rows[ry];
                let mut rx: i32 = 0;
                while rx < 5
                    invariant
                        0 <= k < t.len(),
                        glyph(t[k]) == Some(rows@),
                        0 <= ry < 7,
                        row == rows@[ry as int],
                        c.wf(),
                        c.width == w,
                        c.height == h,
                        old_data.len() >= w * h * 4,
                        s == scale,
                        xi == x,
                        yi == y,
                        6 * scale <= i32::MAX,
                        i32::MIN <= x + 6 * scale * t.len() <= i32::MAX,
                        scale > 0 ==> y + 7 * scale <= i32::MAX,
                        cx == x + 6 * scale * k,
                        s >= 0 ==> 0 <= 6 * s * (k + 1) <= 6 * s * t.len(),
                        0 <= rx <= 5,
                        text_drawn_upto(
                            old_data,
                            c.data@,
                            w,
                            h,
                            t,
                            xi,
                            yi,
                            s,
                            rgb,
                            alpha,
                            (k, ry as int, rx as int, 0, 0),
                        ),
                    decreases 5 - rx,
                {
                    if row & (1u8 << ((4 - rx) as u8)) != 0 {
                        let mut sy: i32 = 0;
                        while sy < scale
                            invariant
                                0 <= k < t.len(),
                                glyph(t[k]) == Some(rows@),
                                0 <= ry < 7,
                                0 <= rx < 5,
                                glyph_bit(rows@[ry as int], rx as int),
                                c.wf(),
                                c.width == w,
                                c.height == h,
                                old_data.len() >= w * h * 4,
                                s == scale,
                                xi == x,
                                yi == y,
                                6 * scale <= i32::MAX,
                                i32::MIN <= x + 6 * scale * t.len() <= i32::MAX,
                                scale > 0 ==> y + 7 * scale <= i32::MAX,
                                cx == x + 6 * scale * k,
                                s >= 0 ==> 0 <= 6 * s * (k + 1) <= 6 * s * t.len(),
                                0 <= sy,
                                scale > 0 ==> sy <= scale,
                                scale <= 0 ==> sy == 0,
                                text_drawn_upto(
                                    old_data,
                                    c.data@,
                                    w,
                                    h,
                                    t,
                                    xi,
                                    yi,
                                    s,
                                    rgb,
                                    alpha,
                                    (k, ry as int, rx as int, sy as int, 0),
                                ),
                            decreases scale - sy,
                        {
                            let mut sx: i32 = 0;
                            while sx < scale
                                invariant
                                    0 <= k < t.len(),
                                    glyph(t[k]) == Some(rows@),
                                    0 <= ry < 7,
                                    0 <= rx < 5,
                                    glyph_bit(rows@[ry as int], rx as int),
                                    c.wf(),
                                    c.width == w,
                                    c.height == h,
                                    old_data.len() >= w * h * 4,
                                    s == scale,
                                    xi == x,
                                    yi == y,
                                    scale > 0,
                                    6 * scale <= i32::MAX,
                                    i32::MIN <= x + 6 * scale * t.len() <= i32::MAX,
                                    y + 7 * scale <= i32::MAX,
                                    cx == x + 6 * scale * k,
                                    0 <= 6 * s * (k + 1) <= 6 * s * t.len(),
                                    0 <= sy < scale,
                                    0 <= sx <= scale,
                                    text_drawn_upto(
                                        old_data,
                                        c.data@,
                                        w,
                                        h,
                                        t,
                                        xi,
                                        yi,
                                        s,
                                        rgb,
                                        alpha,
                                        (k, ry as int, rx as int, sy as int, sx as int),
                                    ),
                                decreases scale - sx,
                            {
                                proof {
                                    assert(6 * s * k + rx * s + sx < 6 * s * (k + 1)) by (nonlinear_arith)
                                        requires
                                            0 <= rx < 5,
                                            0 <= sx < s,
                                    ;
                                    assert(0 <= rx * s <= 6 * s && 0 <= 6 * s * k) by (nonlinear_arith)
                                        requires
                                            0 <= rx < 5,
                                            0 <= k,
                                            s > 0,
                                    ;
                                    assert(0 <= ry * s <= 6 * s && ry * s + sy < 7 * s) by (nonlinear_arith)
                                        requires
                                            0 <= ry < 7,
                                            0 <= sy < s,
                                    ;
                                }
                                let ghost before = c.data@;
                                c.blend(cx + rx * scale + sx, y + ry as i32 * scale + sy, rgb, alpha);
                                proof {
                                    lemma_blend_dot(
                                        old_data,
                                        before,
                                        c.data@,
                                        w,
                                        h,
                                        t,
                                        xi,
                                        yi,
                                        s,
                                        rgb,
                                        alpha,
                                        k,
                                        ry as int,
                                        rx as int,
                                        sy as int,
                                        sx as int,
                                    );
                                }
                                sx = sx + 1;
                            }
                            proof {
                                assert forall|px: int, py: int| #[trigger]
                                    text_covers(t, xi, yi, s, px, py) implies (lex_lt(
                                    text_cell(xi, yi, s, px, py),
                                    (k, ry as int, rx as int, sy as int, sx as int),
                                ) <==> lex_lt(
                                    text_cell(xi, yi, s, px, py),
                                    (k, ry as int, rx as int, sy + 1, 0),
                                )) by {
                                    lemma_cell_parts(xi, yi, s, px, py);
                                }
                                lemma_progress_same(
                                    old_data,
                                    c.data@,
                                    w,
                                    h,
                                    t,
                                    xi,
                                    yi,
                                    s,
                                    rgb,
                                    alpha,
                                    (k, ry as int, rx as int, sy as int, sx as int),
                                    (k, ry as int, rx as int, sy + 1, 0),
                                );
                            }
                            sy = sy + 1;
                        }
                        proof {
                            assert forall|px: int, py: int| #[trigger]
                                text_covers(t, xi, yi, s, px, py) implies (lex_lt(
                                text_cell(xi, yi, s, px, py),
                                (k, ry as int, rx as int, sy as int, 0),
                            ) <==> lex_lt(
                                text_cell(xi, yi, s, px, py),
                                (k, ry as int, rx + 1, 0, 0),
                            )) by {
                                lemma_cell_parts(xi, yi, s, px, py);
                            }
                            lemma_progress_same(
                                old_data,
                                c.data@,
                                w,
                                h,
                                t,
                                xi,
                                yi,
                                s,
                                rgb,
                                alpha,
                                (k, ry as int, rx as int, sy as int, 0),
                                (k, ry as int, rx + 1, 0, 0),
                            );
                        }
                    } else {
                        proof {
                            assert forall|px: int, py: int| #[trigger]
                                text_covers(t, xi, yi, s, px, py) implies (lex_lt(
                                text_cell(xi, yi, s, px, py),
                                (k, ry as int, rx as int, 0, 0),
                            ) <==> lex_lt(
                                text_cell(xi, yi, s, px, py),
                                (k, ry as int, rx + 1, 0, 0),
                            )) by {
                                lemma_cell_parts(xi, yi, s, px, py);
                            }
                            lemma_progress_same(
                                old_data,
                                c.data@,
                                w,
                                h,
                                t,
                                xi,
                                yi,
                                s,
                                rgb,
                                alpha,
                                (k, ry as int, rx as int, 0, 0),
                                (k, ry as int, rx + 1, 0, 0),
                            );
                        }
                    }
                    rx = rx + 1;
                }
                proof {
                    assert forall|px: int, py: int| #[trigger]
                        text_covers(t, xi, yi, s, px, py) implies (lex_lt(
                        text_cell(xi, yi, s, px, py),
                        (k, ry as int, 5, 0, 0),
                    ) <==> lex_lt(text_cell(xi, yi, s, px, py), (k, ry + 1, 0, 0, 0))) by {
                        lemma_cell_parts(xi, yi, s, px, py);
                    }
                    lemma_progress_same(
                        old_data,
                        c.data@,
                        w,
                        h,
                        t,
                        xi,
                        yi,
                        s,
                        rgb,
                        alpha,
                        (k, ry as int, 5, 0, 0),
                        (k, ry + 1, 0, 0, 0),
                    );
                }
                ry = ry + 1;
            }
            proof {
                assert forall|px: int, py: int| #[trigger]
                    text_covers(t, xi, yi, s, px, py) implies (lex_lt(
                    text_cell(xi, yi, s, px, py),
                    (k, 7, 0, 0, 0),
                ) <==> lex_lt(text_cell(xi, yi, s, px, py), (k + 1, 0, 0, 0, 0))) by {
                    lemma_cell_parts(xi, yi, s, px, py);
                }
                lemma_progress_same(
                    old_data,
                    c.data@,
                    w,
                    h,
                    t,
                    xi,
                    yi,
                    s,
                    rgb,
                    alpha,
                    (k, 7, 0, 0, 0),
                    (k + 1, 0, 0, 0, 0),
                );
            }
        } else {
            proof {
                assert forall|px: int, py: int| #[trigger]
                    text_covers(t, xi, yi, s, px, py) implies (lex_lt(
                    text_cell(xi, yi, s, px, py),
                    (k, 0, 0, 0, 0),
                ) <==> lex_lt(text_cell(xi, yi, s, px, py), (k + 1, 0, 0, 0, 0))) by {
                    lemma_cell_parts(xi, yi, s, px, py);
                }
                lemma_progress_same(
                    old_data,
                    c.data@,
                    w,
                    h,
                    t,
                    xi,
                    yi,
                    s,
                    rgb,
                    alpha,
                    (k, 0, 0, 0, 0),
                    (k + 1, 0, 0, 0, 0),
                );
            }
        }
        proof {
            assert(6 * s * k + 6 * s == 6 * s * (k + 1)) by (nonlinear_arith);
        }
        cx = cx + 6 * scale;
        proof {
            k = k + 1;
        }
    }
    proof {
        assert forall|px: int, py: int| #[trigger]
            text_covers(t, xi, yi, s, px, py) implies lex_lt(
            text_cell(xi, yi, s, px, py),
            (t.len() as int, 0, 0, 0, 0),
        ) by {
            lemma_cell_parts(xi, yi, s, px, py);
        }
        assert forall|px: int, py: int, ch: int|
            inside(w, h, px, py) && 0 <= ch < 4 implies #[trigger] c.data@[px_index(w, px, py, ch)]
            == if alpha != 0 && text_covers(t, xi, yi, s, px, py) {
            blend_byte(old_data, px_index(w, px, py, 0), ch, rgb, alpha)
        } else {
            old_data[px_index(w, px, py, ch)]
        } by {
            if text_covers(t, xi, yi, s, px, py) {
            }
        }
    }
}

} // verus!
