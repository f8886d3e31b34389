use vstd::prelude::*;
use crate::dct::{ints, bounded};
use crate::plane::{is_plane, plane_view, plane_bounded, min};

verus! {

/// Width or height of a plane subsampled by two: `ceil(n / 2)`.
pub open spec fn half(n: int) -> int {
    (n + 1) / 2
}

/// Nearest-neighbour downsampling by two on each axis: sample `(x, y)` is read
/// at `(min(2x, w - 1), min(2y, h - 1))`.
pub open spec fn downsample(p: Seq<Seq<int>>, w: int, h: int) -> Seq<Seq<int>> {
    Seq::new(half(h) as nat, |y: int| Seq::new(half(w) as nat, |x: int|
        p[min(2 * y, h - 1)][min(2 * x, w - 1)]))
}

/// Replication of a `sw` by `sh` subsampled plane back to `w` by `h`: sample
/// `(x, y)` is read at `(min(x / 2, sw - 1), min(y / 2, sh - 1))`.
pub open spec fn upsample(s: Seq<Seq<int>>, w: int, h: int, sw: int, sh: int) -> Seq<Seq<int>> {
    Seq::new(h as nat, |y: int| Seq::new(w as nat, |x: int|
        s[min(y / 2, sh - 1)][min(x / 2, sw - 1)]))
}

/// Width or height of a plane subsampled by two.
pub fn half_dim(n: usize) -> (r: usize)
    ensures
        r == half(n as int),
{
    n / 2 + n % 2
}

/// Downsamples a `w` by `h` plane by two on each axis.
pub fn downsample_plane(p: &Vec<Vec<i64>>, w: usize, h: usize) -> (r: Vec<Vec<i64>>)
    requires
        0 < w,
        0 < h,
        is_plane(p@, w as int, h as int),
    ensures
        is_plane(r@, half(w as int), half(h as int)),
        plane_view(r@) == downsample(plane_view(p@), w as int, h as int),
{
    let sw: usize = half_dim(w);
    let sh: usize = half_dim(h);
    let mut r: Vec<Vec<i64>> = Vec::new();
    let mut y: usize = 0;
    while y < sh
        invariant
            0 < w,
            0 < h,
            sw == half(w as int),
            sh == half(h as int),
            is_plane(p@, w as int, h as int),
            y <= sh,
            r@.len() == y,
            forall|yy: int| 0 <= yy < y ==> (#[trigger] r@[yy])@.len() == sw,
            forall|yy: int| 0 <= yy < y ==> ints((#[trigger] r@[yy])@)
                == downsample(plane_view(p@), w as int, h as int)[yy],
        decreases sh - y,
    {
        let sy: usize = if 2 * y < h - 1 { 2 * y } else { h - 1 };
        let mut row: Vec<i64> = Vec::new();
        let mut x: usize = 0;
        while x < sw
            invariant
                0 < w,
                sw == half(w as int),
                sy < h,
                is_plane(p@, w as int, h as int),
                x <= sw,
                row@.len() == x,
                forall|xx: int| 0 <= xx < x ==> #[trigger] row@[xx] as int
                    == ints(p@[sy as int]@)[min(2 * xx, w - 1)],
            decreases sw - x,
        {
            let sx: usize = if 2 * x < w - 1 { 2 * x } else { w - 1 };
            row.push(p[sy][sx]);
            x = x + 1;
        }
        assert(ints(row@) =~= downsample(plane_view(p@), w as int, h as int)[y as int]);
        r.push(row);
        y = y + 1;
    }
    assert(plane_view(r@) =~= downsample(plane_view(p@), w as int, h as int));
    r
}

/// Upsamples a `sw` by `sh` plane to `w` by `h`, each sample covering the
/// 2x2 pixels (fewer at the edges) that it stands for.
pub fn upsample_plane(s: &Vec<Vec<i64>>, w: usize, h: usize, sw: usize, sh: usize) -> (r: Vec<Vec<i64>>)
    requires
        0 < sw,
        0 < sh,
        is_plane(s@, sw as int, sh as int),
    ensures
        is_plane(r@, w as int, h as int),
        plane_view(r@) == upsample(plane_view(s@), w as int, h as int, sw as int, sh as int),
{
    let mut r: Vec<Vec<i64>> = Vec::new();
    let mut y: usize = 0;
    while y < h
        invariant
            0 < sw,
            0 < sh,
            is_plane(s@, sw as int, sh as int),
            y <= h,
            r@.len() == y,
            forall|yy: int| 0 <= yy < y ==> (#[trigger] r@[yy])@.len() == w,
            forall|yy: int| 0 <= yy < y ==> ints((#[trigger] r@[yy])@)
                == upsample(plane_view(s@), w as int, h as int, sw as int, sh as int)[yy],
        decreases h - y,
    {
        let sy: usize = if y / 2 < sh - 1 { y / 2 } else { sh - 1 };
        let mut row: Vec<i64> = Vec::new();
        let mut x: usize = 0;
        while x < w
            invariant
                0 < sw,
                sy < sh,
                is_plane(s@, sw as int, sh as int),
                x <= w,
                row@.len() == x,
                forall|xx: int| 0 <= xx < x ==> #[trigger] row@[xx] as int
                    == ints(s@[sy as int]@)[min(xx / 2, sw - 1)],
            decreases w - x,
        {
            let sx: usize = if x / 2 < sw - 1 { x / 2 } else { sw - 1 };
            row.push(s[sy][sx]);
            x = x + 1;
        }
        assert(ints(row@) =~= upsample(plane_view(s@), w as int, h as int, sw as int, sh as int)[y as int]);
        r.push(row);
        y = y + 1;
    }
    assert(plane_view(r@) =~= upsample(plane_view(s@), w as int, h as int, sw as int, sh as int));
    r
}

} // verus!

verus! {

/// Downsampling keeps a bound on the samples.
pub proof fn lemma_downsample_bounded(p: Seq<Vec<i64>>, r: Seq<Vec<i64>>, w: int, h: int, lim: int)
    requires
        0 < w,
        0 < h,
        is_plane(p, w, h),
        is_plane(r, half(w), half(h)),
        plane_view(r) == downsample(plane_view(p), w, h),
        plane_bounded(p, lim),
    ensures
        plane_bounded(r, lim),
{
    assert forall|y: int| 0 <= y < r.len() implies bounded((#[trigger] r[y])@, lim) by {
        assert forall|x: int| 0 <= x < r[y]@.len() implies -lim <= #[trigger] r[y]@[x] <= lim by {
            assert(plane_view(r)[y][x] == r[y]@[x] as int);
            let sy = min(2 * y, h - 1);
            let sx = min(2 * x, w - 1);
            assert(plane_view(p)[sy][sx] == p[sy]@[sx] as int);
            assert(bounded(p[sy]@, lim));
        }
    }
}

/// Upsampling keeps a bound on the samples.
pub proof fn lemma_upsample_bounded(s: Seq<Vec<i64>>, r: Seq<Vec<i64>>, w: int, h: int, sw: int, sh: int, lim: int)
    requires
        0 < sw,
        0 < sh,
        is_plane(s, sw, sh),
        is_plane(r, w, h),
        plane_view(r) == upsample(plane_view(s), w, h, sw, sh),
        plane_bounded(s, lim),
    ensures
        plane_bounded(r, lim),
{
    assert forall|y: int| 0 <= y < r.len() implies bounded((#[trigger] r[y])@, lim) by {
        assert forall|x: int| 0 <= x < r[y]@.len() implies -lim <= #[trigger] r[y]@[x] <= lim by {
            assert(plane_view(r)[y][x] == r[y]@[x] as int);
            let sy = min(y / 2, sh - 1);
            let sx = min(x / 2, sw - 1);
            assert(plane_view(s)[sy][sx] == s[sy]@[sx] as int);
            assert(bounded(s[sy]@, lim));
        }
    }
}

} // verus!

verus! {

/// Downsampling and then upsampling a plane gives every pixel the value of the
/// top-left sample of the 2x2 quadrant it lies in: never a value from outside
/// the quadrant, and never an interpolated one.
pub proof fn lemma_resample_round_trip(p: Seq<Seq<int>>, w: int, h: int)
    requires
        0 < w,
        0 < h,
        p.len() == h,
        forall|y: int| 0 <= y < h ==> (#[trigger] p[y]).len() == w,
    ensures
        forall|y: int, x: int| 0 <= y < h && 0 <= x < w ==> {
            &&& (y - y % 2) / 2 == y / 2
            &&& (x - x % 2) / 2 == x / 2
            &&& #[trigger] upsample(downsample(p, w, h), w, h, half(w), half(h))[y][x] == p[y - y % 2][x - x % 2]
        },
{
    assert forall|y: int, x: int| 0 <= y < h && 0 <= x < w implies {
        &&& (y - y % 2) / 2 == y / 2
        &&& (x - x % 2) / 2 == x / 2
        &&& #[trigger] upsample(downsample(p, w, h), w, h, half(w), half(h))[y][x] == p[y - y % 2][x - x % 2]
    } by {
        let s = downsample(p, w, h);
        assert(min(y / 2, half(h) - 1) == y / 2);
        assert(min(x / 2, half(w) - 1) == x / 2);
        assert(min(2 * (y / 2), h - 1) == y - y % 2);
        assert(min(2 * (x / 2), w - 1) == x - x % 2);
    }
}

} // verus!
