use vstd::prelude::*;
use crate::fixed::{div_round, round_div, lemma_round_div_range};

verus! {

/// Chroma samples are stored with this offset (128 levels) added.
pub const CHROMA_OFFSET: i64 = 32768;

/// Largest magnitude of a sample that `ycbcr_to_rgb` accepts.
pub const INVERSE_INPUT_LIMIT: i64 = 0x8_0000_0000;

/// Luma of a pixel in plane units: `0.299 R + 0.587 G + 0.114 B`, with the
/// weights in units of `2^-16`.
pub open spec fn luma(r: int, g: int, b: int) -> int {
    round_div(19595 * r + 38470 * g + 7471 * b, 256)
}

/// Blue-difference chroma in plane units: `-0.168736 R - 0.331264 G + 0.5 B + 128`.
pub open spec fn chroma_blue(r: int, g: int, b: int) -> int {
    round_div(-11059 * r - 21709 * g + 32768 * b, 256) + CHROMA_OFFSET
}

/// Red-difference chroma in plane units: `0.5 R - 0.418688 G - 0.081312 B + 128`.
pub open spec fn chroma_red(r: int, g: int, b: int) -> int {
    round_div(32768 * r - 27439 * g - 5329 * b, 256) + CHROMA_OFFSET
}

/// A value rounded to a channel level in `[0, 255]`, from units of `2^-24`.
pub open spec fn to_channel(v: int) -> int {
    let c = round_div(v, 0x100_0000);
    if c < 0 { 0 } else if c > 255 { 255 } else { c }
}

/// Red of `Y + 1.402 Cr`, the chroma taken without its offset.
pub open spec fn red_of(y: int, cb: int, cr: int) -> int {
    to_channel(65536 * y + 91881 * (cr - CHROMA_OFFSET))
}

/// Green of `Y - 0.344136 Cb - 0.714136 Cr`, the chroma taken without its offset.
pub open spec fn green_of(y: int, cb: int, cr: int) -> int {
    to_channel(65536 * y - 22554 * (cb - CHROMA_OFFSET) - 46802 * (cr - CHROMA_OFFSET))
}

/// Blue of `Y + 1.772 Cb`, the chroma taken without its offset.
pub open spec fn blue_of(y: int, cb: int, cr: int) -> int {
    to_channel(65536 * y + 116130 * (cb - CHROMA_OFFSET))
}

/// Converts one RGB pixel to luma and the two chroma samples, in plane units.
pub fn rgb_to_ycbcr(r: u8, g: u8, b: u8) -> (res: (i64, i64, i64))
    ensures
        res.0 == luma(r as int, g as int, b as int),
        res.1 == chroma_blue(r as int, g as int, b as int),
        res.2 == chroma_red(r as int, g as int, b as int),
        0 <= res.0 <= 65536,
        0 <= res.1 <= 65536,
        0 <= res.2 <= 65536,
{
    let r: i64 = r as i64;
    let g: i64 = g as i64;
    let b: i64 = b as i64;
    let yv: i64 = div_round(19595 * r + 38470 * g + 7471 * b, 256);
    let cb: i64 = div_round(-11059 * r - 21709 * g + 32768 * b, 256) + CHROMA_OFFSET;
    let cr: i64 = div_round(32768 * r - 27439 * g - 5329 * b, 256) + CHROMA_OFFSET;
    proof {
        lemma_round_div_range(19595 * r + 38470 * g + 7471 * b, 256, 0, 65280);
        lemma_round_div_range(-11059 * r - 21709 * g + 32768 * b, 256, -32768, 32768);
        lemma_round_div_range(32768 * r - 27439 * g - 5329 * b, 256, -32768, 32768);
    }
    (yv, cb, cr)
}

fn channel(v: i64) -> (r: u8)
    requires
        -0x100_0000_0000_0000 <= v <= 0x100_0000_0000_0000,
    ensures
        r as int == to_channel(v as int),
{
    let c: i64 = div_round(v, 0x100_0000);
    if c < 0 {
        0
    } else if c > 255 {
        255
    } else {
        c as u8
    }
}

/// Converts luma and chroma samples back to an RGB pixel, rounding each
/// channel and clamping it to `[0, 255]`.
pub fn ycbcr_to_rgb(y: i64, cb: i64, cr: i64) -> (res: (u8, u8, u8))
    requires
        -INVERSE_INPUT_LIMIT <= y <= INVERSE_INPUT_LIMIT,
        -INVERSE_INPUT_LIMIT <= cb <= INVERSE_INPUT_LIMIT,
        -INVERSE_INPUT_LIMIT <= cr <= INVERSE_INPUT_LIMIT,
    ensures
        res.0 == red_of(y as int, cb as int, cr as int),
        res.1 == green_of(y as int, cb as int, cr as int),
        res.2 == blue_of(y as int, cb as int, cr as int),
{
    let db: i64 = cb - CHROMA_OFFSET;
    let dr: i64 = cr - CHROMA_OFFSET;
    let red = channel(65536 * y + 91881 * dr);
    let green = channel(65536 * y - 22554 * db - 46802 * dr);
    let blue = channel(65536 * y + 116130 * db);
    (red, green, blue)
}

} // verus!
