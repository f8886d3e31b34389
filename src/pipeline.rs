use vstd::prelude::*;
use crate::dct::{ints, bounded, valid_table};
use crate::plane::{is_plane, plane_view, plane_bounded, code_plane, process_plane, load_block, min, CODED_LIMIT};
use crate::dct::{flat, flat_code_value, lemma_flat_block_stays_flat};
use crate::fixed::{SAMPLE_ONE, lemma_round_div_range};
use crate::chroma::{half, half_dim, downsample, upsample, downsample_plane, upsample_plane,
    lemma_downsample_bounded, lemma_upsample_bounded};
use crate::color::{luma, chroma_blue, chroma_red, red_of, green_of, blue_of, rgb_to_ycbcr, ycbcr_to_rgb,
    INVERSE_INPUT_LIMIT};
use crate::quant::{quant_table, clamp_level, build_quant_table};

verus! {

/// An RGBA raster: `width * height` pixels, row-major, four bytes each.
#[derive(Clone, Debug)]
pub struct RasterImage {
    pub width: u32,
    pub height: u32,
    pub pixels: Vec<u8>,
}

/// Why an image was refused.
#[derive(Clone, Copy, Debug, PartialEq, Eq, Structural)]
pub enum CompressError {
    /// The width or the height is zero.
    InvalidDimensions,
    /// The pixel buffer does not hold exactly `width * height * 4` bytes.
    BufferSizeMismatch,
}

/// Channel `c` of pixel `(x, y)` of a `w`-wide RGBA buffer.
pub open spec fn px(pix: Seq<u8>, w: int, y: int, x: int, c: int) -> int {
    pix[(y * w + x) * 4 + c] as int
}

/// The plane of one forward color component, computed from each pixel's RGB.
pub open spec fn color_plane(pix: Seq<u8>, w: int, h: int, comp: int) -> Seq<Seq<int>> {
    Seq::new(h as nat, |y: int| Seq::new(w as nat, |x: int| {
        let r = px(pix, w, y, x, 0);
        let g = px(pix, w, y, x, 1);
        let b = px(pix, w, y, x, 2);
        if comp == 0 { luma(r, g, b) } else if comp == 1 { chroma_blue(r, g, b) } else { chroma_red(r, g, b) }
    }))
}

/// A chroma plane subsampled, coded block by block and brought back to full size.
pub open spec fn coded_chroma(p: Seq<Seq<int>>, w: int, h: int, table: Seq<int>) -> Seq<Seq<int>> {
    upsample(code_plane(downsample(p, w, h), half(w), half(h), table), w, h, half(w), half(h))
}

/// Output channel `c` of a pixel from its processed luma and chroma; alpha is opaque.
pub open spec fn channel_of(y: int, cb: int, cr: int, c: int) -> int {
    if c == 0 { red_of(y, cb, cr) } else if c == 1 { green_of(y, cb, cr) } else if c == 2 { blue_of(y, cb, cr) } else { 255 }
}

/// Channel `c` of pixel `(x, y)` of a valid image compressed at a distortion level
/// that clamps to a positive value.
pub open spec fn compressed_channel(pix: Seq<u8>, w: int, h: int, level: int, y: int, x: int, c: int) -> int {
    let table = quant_table(level);
    let yp = code_plane(color_plane(pix, w, h, 0), w, h, table);
    let cbp = coded_chroma(color_plane(pix, w, h, 1), w, h, table);
    let crp = coded_chroma(color_plane(pix, w, h, 2), w, h, table);
    channel_of(yp[y][x], cbp[y][x], crp[y][x], c)
}

/// `y * w + x < w * h` for a position inside the image.
proof fn lemma_pixel_index(w: int, h: int, y: int, x: int)
    requires
        0 <= y < h,
        0 <= x < w,
    ensures
        y * w + x < w * h,
        (y * w + x + 1) * 4 == (y * w + x) * 4 + 4,
        (y * w + w) == (y + 1) * w,
{
    assert(y * w + x < w * h) by (nonlinear_arith)
        requires 0 <= y < h, 0 <= x < w;
    assert((y + 1) * w == y * w + w) by (nonlinear_arith);
}

/// Splits an RGBA buffer into its luma and chroma planes.
fn split_planes(pix: &Vec<u8>, w: usize, h: usize) -> (r: (Vec<Vec<i64>>, Vec<Vec<i64>>, Vec<Vec<i64>>))
    requires
        pix@.len() == w * h * 4,
    ensures
        is_plane(r.0@, w as int, h as int),
        is_plane(r.1@, w as int, h as int),
        is_plane(r.2@, w as int, h as int),
        plane_bounded(r.0@, 65536),
        plane_bounded(r.1@, 65536),
        plane_bounded(r.2@, 65536),
        plane_view(r.0@) == color_plane(pix@, w as int, h as int, 0),
        plane_view(r.1@) == color_plane(pix@, w as int, h as int, 1),
        plane_view(r.2@) == color_plane(pix@, w as int, h as int, 2),
{
    let mut yp: Vec<Vec<i64>> = Vec::new();
    let mut cbp: Vec<Vec<i64>> = Vec::new();
    let mut crp: Vec<Vec<i64>> = Vec::new();
    let ghost wi = w as int;
    let ghost hi = h as int;
    let n: usize = pix.len();
    let mut idx: usize = 0;
    let mut y: usize = 0;
    while y < h
        invariant
            pix@.len() == w * h * 4,
            n == pix@.len(),
            wi == w,
            hi == h,
            y <= h,
            idx == y * w * 4,
            yp@.len() == y,
            cbp@.len() == y,
            crp@.len() == y,
            is_plane(yp@, wi, y as int),
            is_plane(cbp@, wi, y as int),
            is_plane(crp@, wi, y as int),
            plane_bounded(yp@, 65536),
            plane_bounded(cbp@, 65536),
            plane_bounded(crp@, 65536),
            forall|yy: int| 0 <= yy < y ==> ints((#[trigger] yp@[yy])@) == color_plane(pix@, wi, hi, 0)[yy],
            forall|yy: int| 0 <= yy < y ==> ints((#[trigger] cbp@[yy])@) == color_plane(pix@, wi, hi, 1)[yy],
            forall|yy: int| 0 <= yy < y ==> ints((#[trigger] crp@[yy])@) == color_plane(pix@, wi, hi, 2)[yy],
        decreases h - y,
    {
        let mut ry: Vec<i64> = Vec::new();
        let mut rb: Vec<i64> = Vec::new();
        let mut rr: Vec<i64> = Vec::new();
        let mut x: usize = 0;
        while x < w
            invariant
                pix@.len() == w * h * 4,
                n == pix@.len(),
                wi == w,
                hi == h,
                y < h,
                x <= w,
                idx == (y * w + x) * 4,
                ry@.len() == x,
                rb@.len() == x,
                rr@.len() == x,
                bounded(ry@, 65536),
                bounded(rb@, 65536),
                bounded(rr@, 65536),
                forall|xx: int| 0 <= xx < x ==> #[trigger] ry@[xx] as int == color_plane(pix@, wi, hi, 0)[y as int][xx],
                forall|xx: int| 0 <= xx < x ==> #[trigger] rb@[xx] as int == color_plane(pix@, wi, hi, 1)[y as int][xx],
                forall|xx: int| 0 <= xx < x ==> #[trigger] rr@[xx] as int == color_plane(pix@, wi, hi, 2)[y as int][xx],
            decreases w - x,
        {
            proof {
                lemma_pixel_index(wi, hi, y as int, x as int);
                assert((y * w + x) * 4 + 4 <= w * h * 4) by (nonlinear_arith)
                    requires y * w + x < w * h;
            }
            let (lv, bv, rv) = rgb_to_ycbcr(pix[idx], pix[idx + 1], pix[idx + 2]);
            ry.push(lv);
            rb.push(bv);
            rr.push(rv);
            idx = idx + 4;
            x = x + 1;
        }
        proof {
            assert((y * w + w) * 4 == (y + 1) * w * 4) by (nonlinear_arith);
        }
        assert(ints(ry@) =~= color_plane(pix@, wi, hi, 0)[y as int]);
        assert(ints(rb@) =~= color_plane(pix@, wi, hi, 1)[y as int]);
        assert(ints(rr@) =~= color_plane(pix@, wi, hi, 2)[y as int]);
        yp.push(ry);
        cbp.push(rb);
        crp.push(rr);
        y = y + 1;
    }
    assert(plane_view(yp@) =~= color_plane(pix@, wi, hi, 0));
    assert(plane_view(cbp@) =~= color_plane(pix@, wi, hi, 1));
    assert(plane_view(crp@) =~= color_plane(pix@, wi, hi, 2));
    (yp, cbp, crp)
}

} // verus!

verus! {

/// Interleaves processed planes into an RGBA buffer, alpha forced to 255.
fn assemble(yp: &Vec<Vec<i64>>, cbp: &Vec<Vec<i64>>, crp: &Vec<Vec<i64>>, w: usize, h: usize) -> (r: Vec<u8>)
    requires
        w * h * 4 <= usize::MAX,
        is_plane(yp@, w as int, h as int),
        is_plane(cbp@, w as int, h as int),
        is_plane(crp@, w as int, h as int),
        plane_bounded(yp@, INVERSE_INPUT_LIMIT as int),
        plane_bounded(cbp@, INVERSE_INPUT_LIMIT as int),
        plane_bounded(crp@, INVERSE_INPUT_LIMIT as int),
    ensures
        r@.len() == w * h * 4,
        forall|y: int, x: int, c: int| 0 <= y < h && 0 <= x < w && 0 <= c < 4 ==>
            #[trigger] px(r@, w as int, y, x, c) == channel_of(
                plane_view(yp@)[y][x], plane_view(cbp@)[y][x], plane_view(crp@)[y][x], c),
{
    let ghost wi = w as int;
    let ghost hi = h as int;
    let mut r: Vec<u8> = Vec::new();
    let mut y: usize = 0;
    while y < h
        invariant
            w * h * 4 <= usize::MAX,
            wi == w,
            hi == h,
            is_plane(yp@, wi, hi),
            is_plane(cbp@, wi, hi),
            is_plane(crp@, wi, hi),
            plane_bounded(yp@, INVERSE_INPUT_LIMIT as int),
            plane_bounded(cbp@, INVERSE_INPUT_LIMIT as int),
            plane_bounded(crp@, INVERSE_INPUT_LIMIT as int),
            y <= h,
            r@.len() == y * w * 4,
            forall|yy: int, xx: int, c: int| 0 <= yy < y && 0 <= xx < w && 0 <= c < 4 ==>
                #[trigger] px(r@, wi, yy, xx, c) == channel_of(
                    plane_view(yp@)[yy][xx], plane_view(cbp@)[yy][xx], plane_view(crp@)[yy][xx], c),
        decreases h - y,
    {
        let mut x: usize = 0;
        while x < w
            invariant
                w * h * 4 <= usize::MAX,
                wi == w,
                hi == h,
                is_plane(yp@, wi, hi),
                is_plane(cbp@, wi, hi),
                is_plane(crp@, wi, hi),
                plane_bounded(yp@, INVERSE_INPUT_LIMIT as int),
                plane_bounded(cbp@, INVERSE_INPUT_LIMIT as int),
                plane_bounded(crp@, INVERSE_INPUT_LIMIT as int),
                y < h,
                x <= w,
                r@.len() == (y * w + x) * 4,
                forall|yy: int, xx: int, c: int| 0 <= yy < y && 0 <= xx < w && 0 <= c < 4 ==>
                    #[trigger] px(r@, wi, yy, xx, c) == channel_of(
                        plane_view(yp@)[yy][xx], plane_view(cbp@)[yy][xx], plane_view(crp@)[yy][xx], c),
                forall|xx: int, c: int| 0 <= xx < x && 0 <= c < 4 ==>
                    #[trigger] px(r@, wi, y as int, xx, c) == channel_of(
                        plane_view(yp@)[y as int][xx], plane_view(cbp@)[y as int][xx], plane_view(crp@)[y as int][xx], c),
            decreases w - x,
        {
            proof {
                lemma_pixel_index(wi, hi, y as int, x as int);
                assert((y * w + x) * 4 + 4 <= w * h * 4) by (nonlinear_arith)
                    requires y * w + x < w * h;
            }
            assert(bounded(yp@[y as int]@, INVERSE_INPUT_LIMIT as int));
            assert(bounded(cbp@[y as int]@, INVERSE_INPUT_LIMIT as int));
            assert(bounded(crp@[y as int]@, INVERSE_INPUT_LIMIT as int));
            let lv: i64 = yp[y][x];
            let bv: i64 = cbp[y][x];
            let rv: i64 = crp[y][x];
            let (red, green, blue) = ycbcr_to_rgb(lv, bv, rv);
            let ghost before = r@;
            r.push(red);
            r.push(green);
            r.push(blue);
            r.push(255u8);
            proof {
                assert forall|yy: int, xx: int, c: int| 0 <= yy < y && 0 <= xx < w && 0 <= c < 4 implies
                    #[trigger] px(r@, wi, yy, xx, c) == channel_of(
                        plane_view(yp@)[yy][xx], plane_view(cbp@)[yy][xx], plane_view(crp@)[yy][xx], c) by {
                    assert((yy * wi + xx) * 4 + c < (y * wi + x) * 4) by (nonlinear_arith)
                        requires 0 <= yy < y, 0 <= xx < wi, 0 <= c < 4, 0 <= x;
                    assert(px(r@, wi, yy, xx, c) == px(before, wi, yy, xx, c));
                }
                assert forall|xx: int, c: int| 0 <= xx < x + 1 && 0 <= c < 4 implies
                    #[trigger] px(r@, wi, y as int, xx, c) == channel_of(
                        plane_view(yp@)[y as int][xx], plane_view(cbp@)[y as int][xx], plane_view(crp@)[y as int][xx], c) by {
                    if xx < x {
                        assert((y * wi + xx) * 4 + c < (y * wi + x) * 4) by (nonlinear_arith)
                            requires 0 <= xx < x, 0 <= c < 4;
                        assert(px(r@, wi, y as int, xx, c) == px(before, wi, y as int, xx, c));
                    }
                }
            }
            x = x + 1;
        }
        proof {
            assert((y * w + w) * 4 == (y + 1) * w * 4) by (nonlinear_arith);
        }
        y = y + 1;
    }
    proof {
        assert(h * w * 4 == w * h * 4) by (nonlinear_arith);
    }
    r
}

} // verus!

verus! {

/// An image that `compress_jpeg` accepts: both sides positive and exactly four
/// bytes per pixel.
pub open spec fn valid_image(image: RasterImage) -> bool {
    image.width > 0 && image.height > 0
        && image.pixels@.len() == image.width * image.height * 4
}

/// Simulates JPEG compression artifacts on an RGBA image.
///
/// `level` is the distortion factor in millionths: `0` returns the image
/// unchanged and `LEVEL_ONE` (factor 1) quantizes most strongly; values
/// outside `[0, LEVEL_ONE]` are clamped. The result has the input's size and
/// opaque alpha.
pub fn compress_jpeg(image: &RasterImage, level: i64) -> (r: Result<RasterImage, CompressError>)
    ensures
        (image.width == 0 || image.height == 0) <==> r == Err::<RasterImage, CompressError>(
            CompressError::InvalidDimensions),
        (image.width > 0 && image.height > 0 && image.pixels@.len() != image.width * image.height * 4)
            <==> r == Err::<RasterImage, CompressError>(CompressError::BufferSizeMismatch),
        valid_image(*image) <==> r is Ok,
        r matches Ok(out) ==> {
            &&& out.width == image.width
            &&& out.height == image.height
            &&& out.pixels@.len() == image.width * image.height * 4
        },
        r matches Ok(out) ==> (clamp_level(level as int) == 0 ==> out.pixels@ == image.pixels@),
        r matches Ok(out) ==> (clamp_level(level as int) != 0 ==> forall|y: int, x: int, c: int|
            0 <= y < image.height && 0 <= x < image.width && 0 <= c < 4 ==>
            #[trigger] px(out.pixels@, image.width as int, y, x, c)
                == compressed_channel(image.pixels@, image.width as int, image.height as int, level as int, y, x, c)),
{
    if image.width == 0 || image.height == 0 {
        return Err(CompressError::InvalidDimensions);
    }
    let wide_w: u128 = image.width as u128;
    let wide_h: u128 = image.height as u128;
    assert(wide_w * wide_h * 4 <= 0x4_0000_0000_0000_0000) by (nonlinear_arith)
        requires wide_w < 0x1_0000_0000, wide_h < 0x1_0000_0000;
    let expected: u128 = wide_w * wide_h * 4;
    if expected != image.pixels.len() as u128 {
        return Err(CompressError::BufferSizeMismatch);
    }
    let w: usize = image.width as usize;
    let h: usize = image.height as usize;
    assert(w <= usize::MAX / 4 && h <= usize::MAX / 4) by (nonlinear_arith)
        requires w * h * 4 <= usize::MAX, w >= 1, h >= 1;
    if crate::quant::clamp_factor(level) == 0 {
        let mut pixels: Vec<u8> = Vec::new();
        let mut i: usize = 0;
        while i < image.pixels.len()
            invariant
                i <= image.pixels@.len(),
                pixels@ == image.pixels@.subrange(0, i as int),
            decreases image.pixels@.len() - i,
        {
            pixels.push(image.pixels[i]);
            i = i + 1;
            assert(pixels@ =~= image.pixels@.subrange(0, i as int));
        }
        assert(pixels@ =~= image.pixels@);
        return Ok(RasterImage { width: image.width, height: image.height, pixels });
    }
    let table = build_quant_table(level);
    assert(valid_table(table@));
    assert(ints(table@) =~= quant_table(level as int));
    let (yp, cbp, crp) = split_planes(&image.pixels, w, h);
    let sw: usize = half_dim(w);
    let sh: usize = half_dim(h);
    let cbs = downsample_plane(&cbp, w, h);
    let crs = downsample_plane(&crp, w, h);
    proof {
        lemma_downsample_bounded(cbp@, cbs@, w as int, h as int, 65536);
        lemma_downsample_bounded(crp@, crs@, w as int, h as int, 65536);
    }
    let y_coded = process_plane(&yp, w, h, &table);
    let cb_coded = process_plane(&cbs, sw, sh, &table);
    let cr_coded = process_plane(&crs, sw, sh, &table);
    let cb_up = upsample_plane(&cb_coded, w, h, sw, sh);
    let cr_up = upsample_plane(&cr_coded, w, h, sw, sh);
    proof {
        lemma_upsample_bounded(cb_coded@, cb_up@, w as int, h as int, sw as int, sh as int, CODED_LIMIT as int);
        lemma_upsample_bounded(cr_coded@, cr_up@, w as int, h as int, sw as int, sh as int, CODED_LIMIT as int);
    }
    let pixels = assemble(&y_coded, &cb_up, &cr_up, w, h);
    Ok(RasterImage { width: image.width, height: image.height, pixels })
}

} // verus!

verus! {

/// Whatever the input's alpha, every pixel that compression produces at a
/// positive distortion level is opaque.
pub proof fn lemma_alpha_opaque(pix: Seq<u8>, w: int, h: int, level: int)
    requires
        clamp_level(level) != 0,
    ensures
        forall|y: int, x: int| 0 <= y < h && 0 <= x < w ==>
            #[trigger] compressed_channel(pix, w, h, level, y, x, 3) == 255,
{
}

} // verus!

verus! {

/// A `w` by `h` plane whose samples all equal `v`.
pub open spec fn const_plane(p: Seq<Seq<int>>, w: int, h: int, v: int) -> bool {
    &&& p.len() == h
    &&& forall|y: int| 0 <= y < h ==> (#[trigger] p[y]).len() == w
    &&& forall|y: int, x: int| 0 <= y < h && 0 <= x < w ==> #[trigger] p[y][x] == v
}

proof fn lemma_code_const_plane(p: Seq<Seq<int>>, w: int, h: int, v: int, table: Seq<int>)
    requires
        0 < w,
        0 < h,
        const_plane(p, w, h, v),
        table.len() == 64,
        forall|i: int| 0 <= i < 64 ==> 1 <= #[trigger] table[i],
    ensures
        const_plane(code_plane(p, w, h, table), w, h, flat_code_value(v, table[0] * SAMPLE_ONE)),
{
    lemma_flat_block_stays_flat(v, table);
    let r = code_plane(p, w, h, table);
    assert forall|y: int, x: int| 0 <= y < h && 0 <= x < w implies
        #[trigger] r[y][x] == flat_code_value(v, table[0] * SAMPLE_ONE) by {
        let blk = load_block(p, w, h, y - y % 8, x - x % 8);
        assert forall|i: int| 0 <= i < 64 implies #[trigger] blk[i] == v by {
            let sy = min(y - y % 8 + i / 8, h - 1);
            let sx = min(x - x % 8 + i % 8, w - 1);
            assert(0 <= sy < h && 0 <= sx < w);
        }
        assert(blk =~= flat(v));
        assert(0 <= (y % 8) * 8 + x % 8 < 64);
    }
}

/// An image whose pixels are all gray 128 compresses, at every positive
/// distortion level, to an image whose pixels are all alike: a flat block has
/// energy only in its DC coefficient, so each of luma and chroma stays flat at
/// the value that its quantized DC coefficient gives.
pub proof fn lemma_flat_gray_stays_flat(pix: Seq<u8>, w: int, h: int, level: int)
    requires
        0 < w,
        0 < h,
        pix.len() == w * h * 4,
        forall|y: int, x: int, c: int| 0 <= y < h && 0 <= x < w && 0 <= c < 3 ==>
            #[trigger] px(pix, w, y, x, c) == 128,
    ensures
        forall|y: int, x: int, c: int| 0 <= y < h && 0 <= x < w && 0 <= c < 4 ==>
            #[trigger] compressed_channel(pix, w, h, level, y, x, c) == {
                let g = flat_code_value(32768, quant_table(level)[0] * SAMPLE_ONE);
                channel_of(g, g, g, c)
            },
{
    let table = quant_table(level);
    let g = flat_code_value(32768, table[0] * SAMPLE_ONE);
    assert forall|i: int| 0 <= i < 64 implies 1 <= #[trigger] table[i] by {}
    lemma_round_div_range((19595 * 128 + 38470 * 128 + 7471 * 128) as int, 256, 32768, 32768);
    lemma_round_div_range(-11059 * 128 - 21709 * 128 + 32768 * 128, 256, 0, 0);
    lemma_round_div_range(32768 * 128 - 27439 * 128 - 5329 * 128, 256, 0, 0);
    let sw = half(w);
    let sh = half(h);
    assert forall|comp: int| 0 <= comp < 3 implies const_plane(#[trigger] color_plane(pix, w, h, comp), w, h, 32768) by {
        let cp = color_plane(pix, w, h, comp);
        assert forall|y: int, x: int| 0 <= y < h && 0 <= x < w implies #[trigger] cp[y][x] == 32768 by {
            assert(px(pix, w, y, x, 0) == 128);
            assert(px(pix, w, y, x, 1) == 128);
            assert(px(pix, w, y, x, 2) == 128);
        }
    }
    lemma_code_const_plane(color_plane(pix, w, h, 0), w, h, 32768, table);
    assert forall|comp: int| 1 <= comp < 3 implies const_plane(
        #[trigger] coded_chroma(color_plane(pix, w, h, comp), w, h, table), w, h, g) by {
        let cp = color_plane(pix, w, h, comp);
        let d = downsample(cp, w, h);
        assert(const_plane(cp, w, h, 32768));
        assert forall|y: int, x: int| 0 <= y < sh && 0 <= x < sw implies #[trigger] d[y][x] == 32768 by {
            assert(0 <= min(2 * y, h - 1) < h);
            assert(0 <= min(2 * x, w - 1) < w);
        }
        lemma_code_const_plane(d, sw, sh, 32768, table);
        let cd = code_plane(d, sw, sh, table);
        let u = upsample(cd, w, h, sw, sh);
        assert forall|y: int, x: int| 0 <= y < h && 0 <= x < w implies #[trigger] u[y][x] == g by {
            assert(0 <= min(y / 2, sh - 1) < sh);
            assert(0 <= min(x / 2, sw - 1) < sw);
        }
    }
}

} // verus!
