use vstd::prelude::*;
use crate::dct::{code, code_block, valid_table, ints, bounded, BLOCK_LEN, DCT_INPUT_LIMIT, IDCT_INPUT_LIMIT};

verus! {

/// Largest magnitude of a sample of a coded plane.
pub const CODED_LIMIT: i64 = 16 * IDCT_INPUT_LIMIT + 5;

/// The values of a plane stored as rows of machine integers.
pub open spec fn plane_view(p: Seq<Vec<i64>>) -> Seq<Seq<int>> {
    p.map_values(|r: Vec<i64>| ints(r@))
}

/// A plane of `h` rows of `w` samples each.
pub open spec fn is_plane(p: Seq<Vec<i64>>, w: int, h: int) -> bool {
    p.len() == h && forall|y: int| 0 <= y < h ==> (#[trigger] p[y])@.len() == w
}

/// Every sample of the plane has magnitude at most `lim`.
pub open spec fn plane_bounded(p: Seq<Vec<i64>>, lim: int) -> bool {
    forall|y: int| 0 <= y < p.len() ==> bounded((#[trigger] p[y])@, lim)
}

/// The smaller of two integers.
pub open spec fn min(a: int, b: int) -> int {
    if a < b { a } else { b }
}

/// The 8x8 block whose top-left sample is at row `by`, column `bx`; positions
/// past the plane take the nearest sample inside it.
pub open spec fn load_block(p: Seq<Seq<int>>, w: int, h: int, by: int, bx: int) -> Seq<int> {
    Seq::new(64, |i: int| p[min(by + i / 8, h - 1)][min(bx + i % 8, w - 1)])
}

/// `band` holds the coded blocks of the band whose top row is `by`, left to right.
pub open spec fn band_coded(band: Seq<Vec<i64>>, p: Seq<Seq<int>>, w: int, h: int, by: int, table: Seq<int>) -> bool {
    &&& band.len() * 8 >= w
    &&& forall|j: int| 0 <= j < band.len() ==> (#[trigger] band[j])@.len() == BLOCK_LEN
    &&& forall|j: int| 0 <= j < band.len() ==> bounded((#[trigger] band[j])@, CODED_LIMIT as int)
    &&& forall|j: int| 0 <= j < band.len() ==> ints((#[trigger] band[j])@)
        == code(load_block(p, w, h, by, 8 * j), table)
}

/// Every block of a plane run through the lossy round trip; each sample is
/// taken from the coded block that covers it.
pub open spec fn code_plane(p: Seq<Seq<int>>, w: int, h: int, table: Seq<int>) -> Seq<Seq<int>> {
    Seq::new(h as nat, |y: int| Seq::new(w as nat, |x: int|
        code(load_block(p, w, h, y - y % 8, x - x % 8), table)[(y % 8) * 8 + x % 8]))
}

fn load_block_exec(p: &Vec<Vec<i64>>, w: usize, h: usize, by: usize, bx: usize) -> (r: Vec<i64>)
    requires
        0 < w < usize::MAX - 8,
        0 < h < usize::MAX - 8,
        by < h,
        bx < w,
        is_plane(p@, w as int, h as int),
        plane_bounded(p@, DCT_INPUT_LIMIT as int),
    ensures
        r@.len() == BLOCK_LEN,
        ints(r@) == load_block(plane_view(p@), w as int, h as int, by as int, bx as int),
        bounded(r@, DCT_INPUT_LIMIT as int),
{
    let mut r: Vec<i64> = Vec::new();
    let mut i: usize = 0;
    while i < 64
        invariant
            0 < w < usize::MAX - 8,
            0 < h < usize::MAX - 8,
            by < h,
            bx < w,
            is_plane(p@, w as int, h as int),
            plane_bounded(p@, DCT_INPUT_LIMIT as int),
            r@.len() == i,
            i <= 64,
            bounded(r@, DCT_INPUT_LIMIT as int),
            forall|j: int| 0 <= j < i ==> #[trigger] r@[j] as int
                == load_block(plane_view(p@), w as int, h as int, by as int, bx as int)[j],
        decreases 64 - i,
    {
        let y: usize = if by + i / 8 < h - 1 { by + i / 8 } else { h - 1 };
        let x: usize = if bx + i % 8 < w - 1 { bx + i % 8 } else { w - 1 };
        let v: i64 = p[y][x];
        assert(bounded(p@[y as int]@, DCT_INPUT_LIMIT as int));
        r.push(v);
        i = i + 1;
    }
    assert(ints(r@) =~= load_block(plane_view(p@), w as int, h as int, by as int, bx as int));
    r
}

/// Codes the band of blocks whose top row is `by`, left to right.
fn code_band(p: &Vec<Vec<i64>>, w: usize, h: usize, by: usize, table: &Vec<i64>) -> (r: Vec<Vec<i64>>)
    requires
        0 < w < usize::MAX - 8,
        0 < h < usize::MAX - 8,
        by < h,
        is_plane(p@, w as int, h as int),
        plane_bounded(p@, DCT_INPUT_LIMIT as int),
        valid_table(table@),
    ensures
        band_coded(r@, plane_view(p@), w as int, h as int, by as int, ints(table@)),
{
    let mut r: Vec<Vec<i64>> = Vec::new();
    let mut bx: usize = 0;
    while bx < w
        invariant
            0 < w < usize::MAX - 8,
            0 < h < usize::MAX - 8,
            by < h,
            is_plane(p@, w as int, h as int),
            plane_bounded(p@, DCT_INPUT_LIMIT as int),
            valid_table(table@),
            bx == 8 * r@.len(),
            bx < w + 8,
            forall|j: int| 0 <= j < r@.len() ==> (#[trigger] r@[j])@.len() == BLOCK_LEN,
            forall|j: int| 0 <= j < r@.len() ==> bounded((#[trigger] r@[j])@, CODED_LIMIT as int),
            forall|j: int| 0 <= j < r@.len() ==> ints((#[trigger] r@[j])@)
                == code(load_block(plane_view(p@), w as int, h as int, by as int, 8 * j), ints(table@)),
        decreases w + 8 - bx,
    {
        let block = load_block_exec(p, w, h, by, bx);
        let coded = code_block(&block, table);
        r.push(coded);
        bx = bx + 8;
    }
    r
}

/// Row `y` of the coded plane, read out of the coded band that covers it.
fn band_row(band: &Vec<Vec<i64>>, p: Ghost<Seq<Seq<int>>>, w: usize, h: usize, y: usize, table: Ghost<Seq<int>>) -> (r: Vec<i64>)
    requires
        0 < w < usize::MAX - 8,
        y < h,
        band_coded(band@, p@, w as int, h as int, y - y % 8, table@),
    ensures
        r@.len() == w,
        bounded(r@, CODED_LIMIT as int),
        ints(r@) == code_plane(p@, w as int, h as int, table@)[y as int],
{
    let mut row: Vec<i64> = Vec::new();
    let mut x: usize = 0;
    while x < w
        invariant
            0 < w < usize::MAX - 8,
            y < h,
            x <= w,
            row@.len() == x,
            bounded(row@, CODED_LIMIT as int),
            band_coded(band@, p@, w as int, h as int, y - y % 8, table@),
            forall|xx: int| 0 <= xx < x ==> #[trigger] row@[xx] as int
                == code(load_block(p@, w as int, h as int, y - y % 8, xx - xx % 8), table@)[(y % 8) * 8 + xx % 8],
        decreases w - x,
    {
        let j: usize = x / 8;
        let k: usize = (y % 8) * 8 + x % 8;
        assert(8 * (j as int) == x - x % 8);
        let v: i64 = band[j][k];
        assert(ints(band@[j as int]@)[k as int] == v as int);
        assert(bounded(band@[j as int]@, CODED_LIMIT as int));
        row.push(v);
        x = x + 1;
    }
    assert(ints(row@) =~= code_plane(p@, w as int, h as int, table@)[y as int]);
    row
}

/// Runs every 8x8 block of a `w` by `h` plane through the lossy round trip,
/// replicating edge samples into blocks that reach past the plane.
pub fn process_plane(p: &Vec<Vec<i64>>, w: usize, h: usize, table: &Vec<i64>) -> (r: Vec<Vec<i64>>)
    requires
        0 < w < usize::MAX - 8,
        0 < h < usize::MAX - 8,
        is_plane(p@, w as int, h as int),
        plane_bounded(p@, DCT_INPUT_LIMIT as int),
        valid_table(table@),
    ensures
        is_plane(r@, w as int, h as int),
        plane_bounded(r@, CODED_LIMIT as int),
        plane_view(r@) == code_plane(plane_view(p@), w as int, h as int, ints(table@)),
{
    let mut r: Vec<Vec<i64>> = Vec::new();
    let mut band: Vec<Vec<i64>> = Vec::new();
    let mut y: usize = 0;
    while y < h
        invariant
            0 < w < usize::MAX - 8,
            0 < h < usize::MAX - 8,
            y <= h,
            is_plane(p@, w as int, h as int),
            plane_bounded(p@, DCT_INPUT_LIMIT as int),
            valid_table(table@),
            r@.len() == y,
            forall|yy: int| 0 <= yy < y ==> (#[trigger] r@[yy])@.len() == w,
            plane_bounded(r@, CODED_LIMIT as int),
            forall|yy: int| 0 <= yy < y ==> ints((#[trigger] r@[yy])@)
                == code_plane(plane_view(p@), w as int, h as int, ints(table@))[yy],
            y % 8 != 0 ==> band_coded(band@, plane_view(p@), w as int, h as int, y - y % 8, ints(table@)),
        decreases h - y,
    {
        if y % 8 == 0 {
            band = code_band(p, w, h, y, table);
        }
        let row = band_row(&band, Ghost(plane_view(p@)), w, h, y, Ghost(ints(table@)));
        r.push(row);
        y = y + 1;
    }
    assert(plane_view(r@) =~= code_plane(plane_view(p@), w as int, h as int, ints(table@)));
    r
}

} // verus!
