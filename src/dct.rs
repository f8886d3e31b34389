use vstd::prelude::*;
use crate::fixed::{div_round, round_div, lemma_round_div_bound, lemma_round_div_close, lemma_round_div_range, SAMPLE_ONE};
use crate::quant::MAX_ENTRY;

verus! {

/// Number of samples in an 8x8 block.
pub const BLOCK_LEN: usize = 64;

/// Scale of the fixed-point basis: basis values are `2^13` times the orthonormal ones.
pub const BASIS_SCALE: i64 = 8192;

/// Largest magnitude of a sample that `dct2d` accepts.
pub const DCT_INPUT_LIMIT: i64 = 0x100_0000;

/// Largest magnitude of a coefficient that `idct2d` accepts.
pub const IDCT_INPUT_LIMIT: i64 = 0x4000_0000;

/// `cos(k * pi / 16)` scaled by 4096 and rounded, for `0 <= k <= 8`.
pub open spec fn cos_quarter(k: int) -> int {
    if k == 0 { 4096 }
    else if k == 1 { 4017 }
    else if k == 2 { 3784 }
    else if k == 3 { 3406 }
    else if k == 4 { 2896 }
    else if k == 5 { 2276 }
    else if k == 6 { 1567 }
    else if k == 7 { 799 }
    else { 0 }
}

/// `cos(k * pi / 16)` scaled by 4096, for any `k >= 0`, built from the first
/// quarter period by the symmetries of the cosine.
pub open spec fn cos16(k: int) -> int {
    let m = k % 32;
    if m <= 8 { cos_quarter(m) }
    else if m <= 16 { -cos_quarter(16 - m) }
    else if m <= 24 { -cos_quarter(m - 16) }
    else { cos_quarter(32 - m) }
}

/// Entry `(u, x)` of the orthonormal 8-point DCT-II matrix,
/// `C(u) / 2 * cos((2x + 1) u pi / 16)`, scaled by `BASIS_SCALE`.
pub open spec fn basis(u: int, x: int) -> int {
    if u == 0 { 2896 } else { cos16((2 * x + 1) * u) }
}

/// Weight of input position `i` in output position `o` of a one-dimensional pass:
/// the DCT matrix for the forward transform, its transpose for the inverse.
pub open spec fn kernel(inverse: bool, o: int, i: int) -> int {
    if inverse { basis(i, o) } else { basis(o, i) }
}

/// Index in a row-major 8x8 block of position `k` of line `line`: along the
/// first index (a column of the block) when `down`, along the second otherwise.
pub open spec fn elem(down: bool, line: int, k: int) -> int {
    if down { k * 8 + line } else { line * 8 + k }
}

/// Sum of the first `n` weighted inputs of output `o` of line `line`.
pub open spec fn line_sum(b: Seq<int>, inverse: bool, down: bool, line: int, o: int, n: int) -> int
    decreases n,
{
    if n <= 0 {
        0
    } else {
        line_sum(b, inverse, down, line, o, n - 1) + kernel(inverse, o, n - 1) * b[elem(down, line, n - 1)]
    }
}

/// One-dimensional transform of every line of a block along one axis, each
/// output rounded back from the basis scale.
pub open spec fn pass(b: Seq<int>, inverse: bool, down: bool) -> Seq<int> {
    Seq::new(64, |i: int| {
        let line = if down { i % 8 } else { i / 8 };
        let o = if down { i / 8 } else { i % 8 };
        round_div(line_sum(b, inverse, down, line, o, 8), BASIS_SCALE as int)
    })
}

/// Forward two-dimensional DCT of a row-major 8x8 block.
pub open spec fn dct(b: Seq<int>) -> Seq<int> {
    pass(pass(b, false, true), false, false)
}

/// Inverse two-dimensional DCT of a row-major 8x8 block.
pub open spec fn idct(b: Seq<int>) -> Seq<int> {
    pass(pass(b, true, true), true, false)
}

/// The values of a sequence of machine integers.
pub open spec fn ints(s: Seq<i64>) -> Seq<int> {
    s.map_values(|v: i64| v as int)
}

/// Every value of `s` has magnitude at most `lim`.
pub open spec fn bounded(s: Seq<i64>, lim: int) -> bool {
    forall|i: int| 0 <= i < s.len() ==> -lim <= #[trigger] s[i] <= lim
}

fn cos16_exec(k: usize) -> (r: i64)
    ensures
        r == cos16(k as int),
{
    let m: usize = k % 32;
    let q: usize = if m <= 8 { m } else if m <= 16 { 16 - m } else if m <= 24 { m - 16 } else { 32 - m };
    let c: i64 = if q == 0 { 4096 }
        else if q == 1 { 4017 }
        else if q == 2 { 3784 }
        else if q == 3 { 3406 }
        else if q == 4 { 2896 }
        else if q == 5 { 2276 }
        else if q == 6 { 1567 }
        else if q == 7 { 799 }
        else { 0 };
    if m <= 8 || m > 24 { c } else { -c }
}

fn kernel_exec(inverse: bool, o: usize, i: usize) -> (r: i64)
    requires
        o < 8,
        i < 8,
    ensures
        r == kernel(inverse, o as int, i as int),
        -4096 <= r <= 4096,
{
    let u: usize = if inverse { i } else { o };
    let x: usize = if inverse { o } else { i };
    assert((2 * x + 1) * u <= 15 * 7) by (nonlinear_arith)
        requires x < 8, u < 8;
    if u == 0 { 2896 } else { cos16_exec((2 * x + 1) * u) }
}

fn transform_pass(b: &Vec<i64>, inverse: bool, down: bool, Ghost(lim): Ghost<int>) -> (r: Vec<i64>)
    requires
        b@.len() == 64,
        0 <= lim <= 0x100_0000_0000,
        bounded(b@, lim),
    ensures
        ints(r@) == pass(ints(b@), inverse, down),
        r@.len() == 64,
        bounded(r@, 4 * lim + 1),
{
    let mut r: Vec<i64> = Vec::new();
    let mut i: usize = 0;
    while i < 64
        invariant
            b@.len() == 64,
            0 <= lim <= 0x100_0000_0000,
            bounded(b@, lim),
            r@.len() == i,
            i <= 64,
            bounded(r@, 4 * lim + 1),
            forall|j: int| 0 <= j < i ==> #[trigger] r@[j] as int == pass(ints(b@), inverse, down)[j],
        decreases 64 - i,
    {
        let line: usize = if down { i % 8 } else { i / 8 };
        let o: usize = if down { i / 8 } else { i % 8 };
        let mut s: i64 = 0;
        let mut k: usize = 0;
        while k < 8
            invariant
                b@.len() == 64,
                0 <= lim <= 0x100_0000_0000,
                bounded(b@, lim),
                line < 8,
                o < 8,
                k <= 8,
                s as int == line_sum(ints(b@), inverse, down, line as int, o as int, k as int),
                -(k * 4096 * lim) <= s <= k * 4096 * lim,
            decreases 8 - k,
        {
            let w: i64 = kernel_exec(inverse, o, k);
            let idx: usize = if down { k * 8 + line } else { line * 8 + k };
            let v: i64 = b[idx];
            assert(-lim <= v <= lim);
            assert(-(4096 * lim) <= w * v <= 4096 * lim) by (nonlinear_arith)
                requires -4096 <= w <= 4096, -lim <= v <= lim, 0 <= lim;
            assert((k + 1) * 4096 * lim == k * 4096 * lim + 4096 * lim) by (nonlinear_arith);
            assert((k + 1) * 4096 * lim <= 8 * 4096 * 0x100_0000_0000) by (nonlinear_arith)
                requires k < 8, 0 <= lim <= 0x100_0000_0000;
            s = s + w * v;
            k = k + 1;
        }
        proof {
            lemma_round_div_bound(s as int, BASIS_SCALE as int, 8 * 4096 * lim);
            assert((8 * 4096 * lim) / 8192 == 4 * lim) by (nonlinear_arith);
        }
        let q: i64 = div_round(s, BASIS_SCALE);
        r.push(q);
        i = i + 1;
    }
    assert(ints(r@) =~= pass(ints(b@), inverse, down));
    r
}

/// Forward DCT of a row-major 8x8 block.
pub fn dct2d(b: &Vec<i64>) -> (r: Vec<i64>)
    requires
        b@.len() == BLOCK_LEN,
        bounded(b@, DCT_INPUT_LIMIT as int),
    ensures
        r@.len() == BLOCK_LEN,
        ints(r@) == dct(ints(b@)),
        bounded(r@, 16 * DCT_INPUT_LIMIT + 5),
{
    let t = transform_pass(b, false, true, Ghost(DCT_INPUT_LIMIT as int));
    transform_pass(&t, false, false, Ghost(4 * DCT_INPUT_LIMIT + 1))
}

/// Inverse DCT of a row-major 8x8 block of coefficients.
pub fn idct2d(b: &Vec<i64>) -> (r: Vec<i64>)
    requires
        b@.len() == BLOCK_LEN,
        bounded(b@, IDCT_INPUT_LIMIT as int),
    ensures
        r@.len() == BLOCK_LEN,
        ints(r@) == idct(ints(b@)),
        bounded(r@, 16 * IDCT_INPUT_LIMIT + 5),
{
    let t = transform_pass(b, true, true, Ghost(IDCT_INPUT_LIMIT as int));
    transform_pass(&t, true, false, Ghost(4 * IDCT_INPUT_LIMIT + 1))
}

} // verus!

verus! {


/// Each coefficient rounded to the nearest multiple of its quantization step,
/// the table entry in channel levels.
pub open spec fn quantize(d: Seq<int>, table: Seq<int>) -> Seq<int> {
    Seq::new(64, |i: int| {
        let step = table[i] * SAMPLE_ONE;
        round_div(d[i], step) * step
    })
}

/// The lossy round trip of one block: forward DCT, quantization, inverse DCT.
pub open spec fn code(b: Seq<int>, table: Seq<int>) -> Seq<int> {
    idct(quantize(dct(b), table))
}

/// A valid quantization table: 64 entries in `[1, MAX_ENTRY]`.
pub open spec fn valid_table(table: Seq<i64>) -> bool {
    table.len() == 64 && forall|i: int| 0 <= i < 64 ==> 1 <= #[trigger] table[i] <= MAX_ENTRY
}

/// Quantizes and dequantizes a block of coefficients.
pub fn quantize_block(d: &Vec<i64>, table: &Vec<i64>) -> (r: Vec<i64>)
    requires
        d@.len() == BLOCK_LEN,
        bounded(d@, 16 * DCT_INPUT_LIMIT + 5),
        valid_table(table@),
    ensures
        r@.len() == BLOCK_LEN,
        ints(r@) == quantize(ints(d@), ints(table@)),
        bounded(r@, IDCT_INPUT_LIMIT as int),
{
    let mut r: Vec<i64> = Vec::new();
    let mut i: usize = 0;
    while i < 64
        invariant
            d@.len() == 64,
            bounded(d@, 16 * DCT_INPUT_LIMIT + 5),
            valid_table(table@),
            r@.len() == i,
            i <= 64,
            bounded(r@, IDCT_INPUT_LIMIT as int),
            forall|j: int| 0 <= j < i ==> #[trigger] r@[j] as int == quantize(ints(d@), ints(table@))[j],
        decreases 64 - i,
    {
        let step: i64 = table[i] * SAMPLE_ONE;
        let v: i64 = d[i];
        let q: i64 = div_round(v, step);
        proof {
            lemma_round_div_close(v as int, step as int);
        }
        assert(-(16 * DCT_INPUT_LIMIT + 5) <= v <= 16 * DCT_INPUT_LIMIT + 5);
        assert(q * step <= IDCT_INPUT_LIMIT && q * step >= -IDCT_INPUT_LIMIT);
        r.push(q * step);
        i = i + 1;
    }
    assert(ints(r@) =~= quantize(ints(d@), ints(table@)));
    r
}

/// Runs one block through the lossy round trip.
pub fn code_block(b: &Vec<i64>, table: &Vec<i64>) -> (r: Vec<i64>)
    requires
        b@.len() == BLOCK_LEN,
        bounded(b@, DCT_INPUT_LIMIT as int),
        valid_table(table@),
    ensures
        r@.len() == BLOCK_LEN,
        ints(r@) == code(ints(b@), ints(table@)),
        bounded(r@, 16 * IDCT_INPUT_LIMIT + 5),
{
    let d = dct2d(b);
    let q = quantize_block(&d, table);
    idct2d(&q)
}

} // verus!

verus! {

/// A block whose 64 samples all equal `v`.
pub open spec fn flat(v: int) -> Seq<int> {
    Seq::new(64, |i: int| v)
}

/// What a flat block of `v` codes to, when the quantization step of the DC
/// coefficient is `step`: the DC coefficient is quantized and brought back, and
/// every other coefficient is zero.
pub open spec fn flat_code_value(v: int, step: int) -> int {
    let dc = round_div(23168 * round_div(23168 * v, 8192), 8192);
    let q = round_div(dc, step) * step;
    round_div(2896 * round_div(2896 * q, 8192), 8192)
}

/// Sum of the first `n` entries of row `o` of the DCT matrix.
pub open spec fn row_total(o: int, n: int) -> int
    decreases n,
{
    if n <= 0 { 0 } else { row_total(o, n - 1) + basis(o, n - 1) }
}

proof fn lemma_flat_line_sum(b: Seq<int>, down: bool, line: int, o: int, a: int, n: int)
    requires
        b.len() == 64,
        0 <= line < 8,
        0 <= n <= 8,
        forall|k: int| 0 <= k < 8 ==> #[trigger] b[elem(down, line, k)] == a,
    ensures
        line_sum(b, false, down, line, o, n) == a * row_total(o, n),
    decreases n,
{
    if n > 0 {
        lemma_flat_line_sum(b, down, line, o, a, n - 1);
        assert(b[elem(down, line, n - 1)] == a);
        let p = line_sum(b, false, down, line, o, n - 1);
        let r = row_total(o, n - 1);
        let w = basis(o, n - 1);
        assert(p + w * a == a * (r + w)) by (nonlinear_arith)
            requires p == a * r;
    }
}

/// Each row of the DCT matrix but the first sums to zero.
proof fn lemma_row_totals(o: int)
    requires
        0 <= o < 8,
    ensures
        row_total(o, 8) == if o == 0 { 23168int } else { 0int },
{
    reveal_with_fuel(row_total, 9);
    if o == 0 {
        assert(row_total(0, 8) == 23168);
    } else if o == 1 {
        assert(row_total(1, 8) == 0);
    } else if o == 2 {
        assert(row_total(2, 8) == 0);
    } else if o == 3 {
        assert(row_total(3, 8) == 0);
    } else if o == 4 {
        assert(row_total(4, 8) == 0);
    } else if o == 5 {
        assert(row_total(5, 8) == 0);
    } else if o == 6 {
        assert(row_total(6, 8) == 0);
    } else {
        assert(row_total(7, 8) == 0);
    }
}

/// A forward line whose inputs all equal `a` has energy only at frequency zero.
proof fn lemma_forward_flat_line(b: Seq<int>, down: bool, line: int, o: int, a: int)
    requires
        b.len() == 64,
        0 <= line < 8,
        0 <= o < 8,
        forall|k: int| 0 <= k < 8 ==> #[trigger] b[elem(down, line, k)] == a,
    ensures
        line_sum(b, false, down, line, o, 8) == if o == 0 { 23168 * a } else { 0 },
{
    lemma_flat_line_sum(b, down, line, o, a, 8);
    lemma_row_totals(o);
    let t = row_total(o, 8);
    assert(a * t == if o == 0 { 23168 * a } else { 0 }) by (nonlinear_arith)
        requires t == if o == 0 { 23168int } else { 0int };
}

/// An inverse line whose only nonzero input is `a` at frequency zero is flat.
proof fn lemma_inverse_dc_line(b: Seq<int>, down: bool, line: int, o: int, a: int)
    requires
        b.len() == 64,
        0 <= line < 8,
        0 <= o < 8,
        b[elem(down, line, 0)] == a,
        forall|k: int| 1 <= k < 8 ==> #[trigger] b[elem(down, line, k)] == 0,
    ensures
        line_sum(b, true, down, line, o, 8) == 2896 * a,
{
    reveal_with_fuel(line_sum, 9);
    assert(b[elem(down, line, 1)] == 0);
    assert(b[elem(down, line, 2)] == 0);
    assert(b[elem(down, line, 3)] == 0);
    assert(b[elem(down, line, 4)] == 0);
    assert(b[elem(down, line, 5)] == 0);
    assert(b[elem(down, line, 6)] == 0);
    assert(b[elem(down, line, 7)] == 0);
}

/// A flat block has energy only in its DC coefficient, so the lossy round
/// trip brings it back flat, at the value that the quantized DC coefficient gives.
pub proof fn lemma_flat_block_stays_flat(v: int, table: Seq<int>)
    requires
        table.len() == 64,
        forall|i: int| 0 <= i < 64 ==> 1 <= #[trigger] table[i],
    ensures
        code(flat(v), table) == flat(flat_code_value(v, table[0] * SAMPLE_ONE)),
{
    let c1 = round_div(23168 * v, 8192);
    let s1 = pass(flat(v), false, true);
    assert forall|i: int| 0 <= i < 64 implies #[trigger] s1[i] == if i / 8 == 0 { c1 } else { 0 } by {
        lemma_forward_flat_line(flat(v), true, i % 8, i / 8, v);
        lemma_round_div_range(0, 8192, 0, 0);
    }
    let dc = round_div(23168 * c1, 8192);
    let s2 = pass(s1, false, false);
    assert forall|i: int| 0 <= i < 64 implies #[trigger] s2[i] == if i == 0 { dc } else { 0 } by {
        let line = i / 8;
        if line == 0 {
            lemma_forward_flat_line(s1, false, line, i % 8, c1);
        } else {
            assert forall|k: int| 0 <= k < 8 implies #[trigger] s1[elem(false, line, k)] == 0 by {
                assert((line * 8 + k) / 8 == line);
            }
            lemma_forward_flat_line(s1, false, line, i % 8, 0);
        }
        lemma_round_div_range(0, 8192, 0, 0);
    }
    let step = table[0] * SAMPLE_ONE;
    let q0 = round_div(dc, step) * step;
    let q = quantize(s2, table);
    assert forall|i: int| 0 <= i < 64 implies #[trigger] q[i] == if i == 0 { q0 } else { 0 } by {
        if i != 0 {
            lemma_round_div_range(0, table[i] * SAMPLE_ONE, 0, 0);
        }
    }
    let e = round_div(2896 * q0, 8192);
    let t = pass(q, true, true);
    assert forall|i: int| 0 <= i < 64 implies #[trigger] t[i] == if i % 8 == 0 { e } else { 0 } by {
        let line = i % 8;
        if line == 0 {
            lemma_inverse_dc_line(q, true, line, i / 8, q0);
        } else {
            assert forall|k: int| 1 <= k < 8 implies #[trigger] q[elem(true, line, k)] == 0 by {}
            lemma_inverse_dc_line(q, true, line, i / 8, 0);
        }
        lemma_round_div_range(0, 8192, 0, 0);
    }
    let out = pass(t, true, false);
    assert forall|i: int| 0 <= i < 64 implies #[trigger] out[i] == flat_code_value(v, step) by {
        let line = i / 8;
        assert forall|k: int| 1 <= k < 8 implies #[trigger] t[elem(false, line, k)] == 0 by {
            assert((line * 8 + k) % 8 == k);
        }
        assert((line * 8) % 8 == 0);
        lemma_inverse_dc_line(t, false, line, i % 8, e);
    }
    assert(out =~= flat(flat_code_value(v, step)));
}

} // verus!
