use vstd::prelude::*;

verus! {

/// The standard JPEG luminance quantization matrix, row-major.
pub open spec fn base_table() -> Seq<int> {
    seq![
        16, 11, 10, 16, 24, 40, 51, 61,
        12, 12, 14, 19, 26, 58, 60, 55,
        14, 13, 16, 24, 40, 57, 69, 56,
        14, 17, 22, 29, 51, 87, 80, 62,
        18, 22, 37, 56, 68, 109, 103, 77,
        24, 35, 55, 64, 81, 104, 113, 92,
        49, 64, 78, 87, 103, 121, 120, 101,
        72, 92, 95, 98, 112, 100, 103, 99
    ]
}

fn base_table_exec() -> (r: Vec<i64>)
    ensures
        r@.len() == 64,
        forall|i: int| 0 <= i < 64 ==> r@[i] as int == #[trigger] base_table()[i],
{
    let r: Vec<i64> = vec![
        16, 11, 10, 16, 24, 40, 51, 61,
        12, 12, 14, 19, 26, 58, 60, 55,
        14, 13, 16, 24, 40, 57, 69, 56,
        14, 17, 22, 29, 51, 87, 80, 62,
        18, 22, 37, 56, 68, 109, 103, 77,
        24, 35, 55, 64, 81, 104, 113, 92,
        49, 64, 78, 87, 103, 121, 120, 101,
        72, 92, 95, 98, 112, 100, 103, 99
    ];
    r
}

} // verus!

verus! {

/// The distortion level that stands for factor 1: levels are millionths.
pub const LEVEL_ONE: i64 = 1_000_000;

/// Largest entry of any quantization table: `121 * 21`.
pub const MAX_ENTRY: i64 = 2541;

/// A distortion level clamped to `[0, LEVEL_ONE]`.
pub open spec fn clamp_level(level: int) -> int {
    if level < 0 { 0 } else if level > LEVEL_ONE { LEVEL_ONE as int } else { level }
}

/// `max(1, floor(base * (1 + 20 c)))` for the factor `c = level / LEVEL_ONE`.
pub open spec fn table_entry(base: int, level: int) -> int {
    let e = base * (LEVEL_ONE + 20 * level) / (LEVEL_ONE as int);
    if e < 1 { 1 } else { e }
}

/// The quantization table for a distortion level, after clamping it.
pub open spec fn quant_table(level: int) -> Seq<int> {
    Seq::new(64, |i: int| table_entry(base_table()[i], clamp_level(level)))
}

/// Clamps a distortion level to `[0, LEVEL_ONE]`: out-of-range levels are not errors.
pub fn clamp_factor(level: i64) -> (r: i64)
    ensures
        r as int == clamp_level(level as int),
{
    if level < 0 {
        0
    } else if level > LEVEL_ONE {
        LEVEL_ONE
    } else {
        level
    }
}

/// Builds the quantization table shared by every block of one run.
pub fn build_quant_table(level: i64) -> (r: Vec<i64>)
    ensures
        r@.len() == 64,
        forall|i: int| 0 <= i < 64 ==> #[trigger] r@[i] as int == quant_table(level as int)[i],
        forall|i: int| 0 <= i < 64 ==> 1 <= #[trigger] r@[i] <= MAX_ENTRY,
{
    let c: i64 = clamp_factor(level);
    let base = base_table_exec();
    let mut r: Vec<i64> = Vec::new();
    let mut i: usize = 0;
    while i < 64
        invariant
            0 <= c <= LEVEL_ONE,
            c as int == clamp_level(level as int),
            base@.len() == 64,
            forall|j: int| 0 <= j < 64 ==> base@[j] as int == #[trigger] base_table()[j],
            r@.len() == i,
            i <= 64,
            forall|j: int| 0 <= j < i ==> #[trigger] r@[j] as int == quant_table(level as int)[j],
            forall|j: int| 0 <= j < i ==> 1 <= #[trigger] r@[j] <= MAX_ENTRY,
        decreases 64 - i,
    {
        let b: i64 = base[i];
        assert(10 <= b <= 121) by {
            assert(base_table()[i as int] == b);
        }
        let scaled: i64 = LEVEL_ONE + 20 * c;
        assert(b * scaled <= 121 * 21_000_000) by (nonlinear_arith)
            requires 10 <= b <= 121, LEVEL_ONE <= scaled <= 21 * LEVEL_ONE;
        assert(b * scaled >= 0) by (nonlinear_arith)
            requires 10 <= b <= 121, LEVEL_ONE <= scaled <= 21 * LEVEL_ONE;
        let e: i64 = (b * scaled) / LEVEL_ONE;
        assert(e <= MAX_ENTRY) by (nonlinear_arith)
            requires e == (b * scaled) / (LEVEL_ONE as int), b * scaled <= 121 * 21_000_000;
        let entry: i64 = if e < 1 { 1 } else { e };
        r.push(entry);
        i = i + 1;
    }
    r
}

} // verus!
