//! The compositor's shared-memory pixel formats and their decoding to RGBA8.
//!
//! A wl_shm format name describes the channel order of a 32-bit integer in
//! host byte order, not the order of the bytes in memory. On a little-endian
//! machine the two are reversed:
//!   - `Xrgb8888` = 0xXXRRGGBB is B,G,R,X in memory: red and blue must be swapped;
//!   - `Xbgr8888` = 0xXXBBGGRR is R,G,B,X in memory: already RGBA, copied as is.
use vstd::prelude::*;
use vstd::arithmetic::div_mod::lemma_fundamental_div_mod_converse;

verus! {

/// A wl_shm pixel format as the capture session offers it. The four 8888
/// formats are the ones that can be decoded; any other format is carried by
/// its raw wl_shm code.
#[derive(Clone, Copy, Debug, PartialEq, Eq, Structural)]
pub enum PixelFormat {
    Xrgb8888,
    Argb8888,
    Xbgr8888,
    Abgr8888,
    Other(u32),
}

/// Why a screen could not be captured.
#[derive(Debug, PartialEq, Eq)]
pub enum CaptureError {
    /// The compositor stopped the capture session; the reason it gave.
    SessionStopped(String),
    /// The session finished negotiating without telling the buffer size.
    MissingBufferSize,
    /// None of the offered formats can be decoded; the formats offered.
    NoDecodableFormat(Vec<PixelFormat>),
    /// The compositor failed the frame; the reason it gave.
    FrameFailed(String),
    /// The pixels are in a format that cannot be decoded.
    UnsupportedFormat(PixelFormat),
}

/// The decodable formats, most preferred first. Opaque formats come first:
/// a screen's alpha channel carries nothing, and the X formats skip it.
pub open spec fn preferred_formats() -> Seq<PixelFormat> {
    seq![
        PixelFormat::Xbgr8888,
        PixelFormat::Xrgb8888,
        PixelFormat::Abgr8888,
        PixelFormat::Argb8888,
    ]
}

/// The first format of `prefs` that `offered` contains, if any.
pub open spec fn first_offered(prefs: Seq<PixelFormat>, offered: Seq<PixelFormat>) -> Option<
    PixelFormat,
>
    decreases prefs.len(),
{
    if prefs.len() == 0 {
        None
    } else if offered.contains(prefs[0]) {
        Some(prefs[0])
    } else {
        first_offered(prefs.drop_first(), offered)
    }
}

/// In memory, red and blue are stored swapped relative to RGBA.
pub open spec fn swaps_red_blue(format: PixelFormat) -> bool {
    format == PixelFormat::Xrgb8888 || format == PixelFormat::Argb8888
}

/// The fourth byte is padding, not alpha: the pixel is opaque.
pub open spec fn is_opaque(format: PixelFormat) -> bool {
    format == PixelFormat::Xrgb8888 || format == PixelFormat::Xbgr8888
}

/// Byte `j` of the RGBA8 decoding of `src`, whose pixels are in `format`.
pub open spec fn rgba_byte(src: Seq<u8>, format: PixelFormat, j: int) -> u8 {
    let c = j % 4;
    let base = j - c;
    if c == 3 {
        if is_opaque(format) {
            255
        } else {
            src[j]
        }
    } else if swaps_red_blue(format) && c != 1 {
        src[base + 2 - c]
    } else {
        src[j]
    }
}

/// The RGBA8 decoding of the first `n` pixels of `src`, whose pixels are in `format`.
pub open spec fn rgba_pixels(src: Seq<u8>, n: int, format: PixelFormat) -> Seq<u8> {
    Seq::new((n * 4) as nat, |j: int| rgba_byte(src, format, j))
}

fn contains_format(offered: &[PixelFormat], f: PixelFormat) -> (r: bool)
    ensures
        r == offered@.contains(f),
{
    let mut i: usize = 0;
    while i < offered.len()
        invariant
            0 <= i <= offered@.len(),
            forall|k: int| 0 <= k < i ==> offered@[k] != f,
        decreases offered@.len() - i,
    {
        if offered[i] == f {
            return true;
        }
        i = i + 1;
    }
    false
}

fn copy_formats(offered: &[PixelFormat]) -> (r: Vec<PixelFormat>)
    ensures
        r@ == offered@,
{
    let mut out: Vec<PixelFormat> = Vec::new();
    let mut i: usize = 0;
    while i < offered.len()
        invariant
            0 <= i <= offered@.len(),
            out@ == offered@.subrange(0, i as int),
        decreases offered@.len() - i,
    {
        out.push(offered[i]);
        i = i + 1;
    }
    assert(out@ =~= offered@);
    out
}

/// Picks, among the formats the compositor offered, the most preferred one
/// that can be decoded (see `preferred_formats`). When none of them can be
/// decoded, the error carries the offered formats.
pub fn pick_format(offered: &[PixelFormat]) -> (r: Result<PixelFormat, CaptureError>)
    ensures
        match r {
            Ok(f) => first_offered(preferred_formats(), offered@) == Some(f),
            Err(e) => {
                &&& first_offered(preferred_formats(), offered@) is None
                &&& e matches CaptureError::NoDecodableFormat(v) && v@ == offered@
            },
        },
{
    let prefs: [PixelFormat; 4] = [
        PixelFormat::Xbgr8888,
        PixelFormat::Xrgb8888,
        PixelFormat::Abgr8888,
        PixelFormat::Argb8888,
    ];
    assert(prefs@ == preferred_formats());
    assert(preferred_formats().subrange(0, 4) =~= preferred_formats());
    let mut i: usize = 0;
    while i < 4
        invariant
            0 <= i <= 4,
            prefs@ == preferred_formats(),
            first_offered(preferred_formats(), offered@) == first_offered(
                preferred_formats().subrange(i as int, 4),
                offered@,
            ),
        decreases 4 - i,
    {
        let f = prefs[i];
        assert(preferred_formats().subrange(i as int, 4).drop_first() =~= preferred_formats().subrange(
            i + 1,
            4,
        ));
        if contains_format(offered, f) {
            return Ok(f);
        }
        i = i + 1;
    }
    assert(preferred_formats().subrange(4, 4) =~= Seq::<PixelFormat>::empty());
    Err(CaptureError::NoDecodableFormat(copy_formats(offered)))
}

proof fn lemma_pixel_byte(i: int, k: int)
    requires
        0 <= i,
        0 <= k < 4,
    ensures
        (i * 4 + k) % 4 == k,
        (i * 4 + k) - k == i * 4,
{
    lemma_fundamental_div_mod_converse(i * 4 + k, 4, i, k);
}

/// Decodes `width * height` pixels in `format` to RGBA8.
///
/// Red and blue are swapped for `Xrgb8888` and `Argb8888`; the alpha byte is
/// 255 for the opaque formats `Xrgb8888` and `Xbgr8888` and copied for the
/// others. A format that is not one of the four 8888 formats is an error.
pub fn to_rgba(src: &[u8], width: u32, height: u32, format: PixelFormat) -> (r: Result<
    Vec<u8>,
    CaptureError,
>)
    requires
        !(format is Other) ==> width * height <= u32::MAX && src@.len() >= width * height * 4,
    ensures
        match r {
            Ok(out) => !(format is Other) && out@ == rgba_pixels(
                src@,
                width * height,
                format,
            ),
            Err(e) => format is Other && e == CaptureError::UnsupportedFormat(format),
        },
{
    let (swap_rb, opaque) = match format {
        PixelFormat::Xrgb8888 => (true, true),
        PixelFormat::Argb8888 => (true, false),
        PixelFormat::Xbgr8888 => (false, true),
        PixelFormat::Abgr8888 => (false, false),
        PixelFormat::Other(_) => {
            return Err(CaptureError::UnsupportedFormat(format));
        },
    };
    let n = (width * height) as usize;
    let src_len = src.len();
    assert(n * 4 <= src_len);
    let mut out: Vec<u8> = Vec::with_capacity(n * 4);
    let mut i: usize = 0;
    while i < n
        invariant
            n == width * height,
            src@.len() >= n * 4,
            src_len == src@.len(),
            swap_rb == swaps_red_blue(format),
            opaque == is_opaque(format),
            0 <= i <= n,
            out@.len() == i * 4,
            forall|j: int| 0 <= j < i * 4 ==> #[trigger] out@[j] == rgba_byte(src@, format, j),
        decreases n - i,
    {
        let b = i * 4;
        if swap_rb {
            out.push(src[b + 2]);
            out.push(src[b + 1]);
            out.push(src[b]);
        } else {
            out.push(src[b]);
            out.push(src[b + 1]);
            out.push(src[b + 2]);
        }
        out.push(if opaque { 255 } else { src[b + 3] });
        proof {
            assert forall|j: int| 0 <= j < (i + 1) * 4 implies #[trigger] out@[j] == rgba_byte(
                src@,
                format,
                j,
            ) by {
                if j >= i * 4 {
                    lemma_pixel_byte(i as int, j - i * 4);
                }
            }
        }
        i = i + 1;
    }
    assert(out@ =~= rgba_pixels(src@, width * height, format));
    Ok(out)
}

/// Law: the chosen format is one the compositor offered, and one that can
/// be decoded.
pub proof fn lemma_picked_format_is_offered(prefs: Seq<PixelFormat>, offered: Seq<PixelFormat>)
    ensures
        first_offered(prefs, offered) matches Some(f) ==> offered.contains(f) && prefs.contains(f),
    decreases prefs.len(),
{
    if prefs.len() > 0 && !offered.contains(prefs[0]) {
        lemma_picked_format_is_offered(prefs.drop_first(), offered);
        if let Some(f) = first_offered(prefs, offered) {
            let i = choose|i: int| 0 <= i < prefs.drop_first().len() && prefs.drop_first()[i] == f;
            assert(prefs[i + 1] == f);
        }
    } else if prefs.len() > 0 {
        assert(prefs[0] == prefs[0]);
    }
}

/// Law: memory in `Abgr8888` already is RGBA8, so decoding copies it; in
/// `Xbgr8888` only the padding byte becomes an opaque 255; and the two
/// red/blue-swapped formats hold the same colours as their unswapped
/// counterparts with red and blue exchanged.
pub proof fn lemma_decoding_by_format(src: Seq<u8>, n: int)
    requires
        0 <= n,
        src.len() >= n * 4,
    ensures
        rgba_pixels(src, n, PixelFormat::Abgr8888) == src.subrange(0, n * 4),
        forall|j: int|
            0 <= j < n * 4 ==> #[trigger] rgba_pixels(src, n, PixelFormat::Xbgr8888)[j] == if j % 4
                == 3 {
                255u8
            } else {
                src[j]
            },
        forall|j: int|
            0 <= j < n * 4 && j % 4 != 3 ==> #[trigger] rgba_pixels(src, n, PixelFormat::Argb8888)[j]
                == src[j - j % 4 + 2 - j % 4],
{
    assert(rgba_pixels(src, n, PixelFormat::Abgr8888) =~= src.subrange(0, n * 4));
}

/// `src` with the first and third bytes of each of its first `n` pixels
/// exchanged (red and blue, in either memory order).
pub open spec fn swap_red_blue(src: Seq<u8>, n: int) -> Seq<u8> {
    Seq::new(
        src.len(),
        |j: int|
            if 0 <= j < n * 4 && (j % 4 == 0 || j % 4 == 2) {
                src[j - j % 4 + 2 - j % 4]
            } else {
                src[j]
            },
    )
}

/// Law: the red/blue-swapped formats are the unswapped ones read from
/// memory whose red and blue bytes are exchanged: `Xrgb8888` of `src` is
/// `Xbgr8888` of the swapped bytes, `Abgr8888` of `src` is `Argb8888` of the
/// swapped bytes; and `Argb8888` differs from `Xrgb8888` only in its alpha
/// bytes, which it copies.
pub proof fn lemma_red_blue_swap(src: Seq<u8>, n: int)
    requires
        0 <= n,
        src.len() >= n * 4,
    ensures
        rgba_pixels(src, n, PixelFormat::Xrgb8888) == rgba_pixels(
            swap_red_blue(src, n),
            n,
            PixelFormat::Xbgr8888,
        ),
        rgba_pixels(src, n, PixelFormat::Abgr8888) == rgba_pixels(
            swap_red_blue(src, n),
            n,
            PixelFormat::Argb8888,
        ),
        forall|j: int|
            0 <= j < n * 4 ==> #[trigger] rgba_pixels(src, n, PixelFormat::Argb8888)[j] == if j % 4
                == 3 {
                src[j]
            } else {
                rgba_pixels(src, n, PixelFormat::Xrgb8888)[j]
            },
{
    let sw = swap_red_blue(src, n);
    assert forall|j: int| 0 <= j < n * 4 implies #[trigger] rgba_pixels(src, n, PixelFormat::Xrgb8888)[j]
        == rgba_pixels(sw, n, PixelFormat::Xbgr8888)[j] && rgba_pixels(src, n, PixelFormat::Abgr8888)[j]
        == rgba_pixels(sw, n, PixelFormat::Argb8888)[j] by {
        let c = j % 4;
        let q = j / 4;
        lemma_fundamental_div_mod_converse(j, 4, q, c);
        assert(j == q * 4 + c) by {
            vstd::arithmetic::div_mod::lemma_fundamental_div_mod(j, 4);
        }
        if c == 0 || c == 2 {
            let k = j - c + 2 - c;
            lemma_fundamental_div_mod_converse(k, 4, q, 2 - c);
            assert(0 <= k < n * 4);
            assert(sw[k] == src[k - (2 - c) + 2 - (2 - c)]);
        }
    }
    assert(rgba_pixels(src, n, PixelFormat::Xrgb8888) =~= rgba_pixels(sw, n, PixelFormat::Xbgr8888));
    assert(rgba_pixels(src, n, PixelFormat::Abgr8888) =~= rgba_pixels(sw, n, PixelFormat::Argb8888));
}

/// Law: opaque formats come first. Whenever the compositor offers an opaque
/// 8888 format, the chosen format is opaque; and whatever is chosen can be
/// decoded.
pub proof fn lemma_opaque_formats_preferred(offered: Seq<PixelFormat>)
    ensures
        offered.contains(PixelFormat::Xbgr8888) || offered.contains(PixelFormat::Xrgb8888)
            ==> (first_offered(preferred_formats(), offered) matches Some(f) && is_opaque(f)),
        first_offered(preferred_formats(), offered) matches Some(f) ==> !(f is Other),
{
    reveal_with_fuel(first_offered, 5);
}

} // verus!
