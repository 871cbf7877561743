//! Dequantization and the inverse discrete cosine transform, in fixed-point
//! integer arithmetic.
use crate::block::{block_ints, coefficient_in_range, unzigzag, zero_block, UNZIGZAG};
use crate::quant::QuantTable;
use vstd::prelude::*;

verus! {

/// The cosines of the multiples of π/16, scaled by 4096 and rounded to the
/// nearest integer.
pub const COSINES: [i16; 32] = [
    4096, 4017, 3784, 3406, 2896, 2276, 1567, 799,
    0, -799, -1567, -2276, -2896, -3406, -3784, -4017,
    -4096, -4017, -3784, -3406, -2896, -2276, -1567, -799,
    0, 799, 1567, 2276, 2896, 3406, 3784, 4017,
];

/// The weight of frequency `u` in sample `x` of an 8-point inverse cosine
/// transform, scaled by 8192: half the cosine of (2x+1)uπ/16, and for the
/// constant term half of that again times the square root of two.
pub open spec fn basis(x: int, u: int) -> int {
    if u == 0 {
        2896
    } else {
        COSINES@[((2 * x + 1) * u) % 32] as int
    }
}

/// The largest magnitude of a weight.
pub const BASIS_MAX: i64 = 4096;

/// The largest magnitude that the transform's intermediate values may have
/// going into a pass.
pub const PASS_MAX: i64 = 0x4000_0000_0000;

/// No weight exceeds `BASIS_MAX` in magnitude.
pub proof fn lemma_basis_bound(x: int, u: int)
    requires
        0 <= x < 8,
        0 <= u < 8,
    ensures
        -4096 <= basis(x, u) <= 4096,
{
    let m = ((2 * x + 1) * u) % 32;
    assert(0 <= m < 32);
}

/// A coefficient brought back into the working range.
pub open spec fn clamp_coefficient(v: int) -> int {
    if v < -32768 {
        -32768
    } else if v > 32767 {
        32767
    } else {
        v
    }
}

/// The dequantized block: each coefficient times the table entry for its
/// zig-zag position, kept within the working range. `block` is in row-major
/// order, `table` in zig-zag order.
pub open spec fn dequantize_spec(block: Seq<int>, table: Seq<u16>) -> Seq<int> {
    Seq::new(64, |n: int| clamp_coefficient(block[n] * table[unzigzag(n)]))
}

/// The weighted sum of eight values for sample `x`.
#[verifier::opaque]
pub open spec fn dot8(
    x: int,
    a0: int,
    a1: int,
    a2: int,
    a3: int,
    a4: int,
    a5: int,
    a6: int,
    a7: int,
) -> int {
    basis(x, 0) * a0 + basis(x, 1) * a1 + basis(x, 2) * a2 + basis(x, 3) * a3 + basis(x, 4) * a4
        + basis(x, 5) * a5 + basis(x, 6) * a6 + basis(x, 7) * a7
}

/// The one-dimensional transform along row `v` of the coefficients, at
/// column `x`.
pub open spec fn row_pass(f: Seq<int>, v: int, x: int) -> int {
    dot8(
        x,
        f[8 * v],
        f[8 * v + 1],
        f[8 * v + 2],
        f[8 * v + 3],
        f[8 * v + 4],
        f[8 * v + 5],
        f[8 * v + 6],
        f[8 * v + 7],
    )
}

/// The two-dimensional transform at row `y`, column `x`, scaled by 2^26.
pub open spec fn column_pass(f: Seq<int>, y: int, x: int) -> int {
    dot8(
        y,
        row_pass(f, 0, x),
        row_pass(f, 1, x),
        row_pass(f, 2, x),
        row_pass(f, 3, x),
        row_pass(f, 4, x),
        row_pass(f, 5, x),
        row_pass(f, 6, x),
        row_pass(f, 7, x),
    )
}

/// The sample for a transform value scaled by 2^26: the value rounded to
/// the nearest integer, raised by 128, and kept within 0 to 255.
pub open spec fn level_shift(s: int) -> u8 {
    let v = (s + 0x200_0000) / 0x400_0000 + 128;
    if v < 0 {
        0
    } else if v > 255 {
        255
    } else {
        v as u8
    }
}

/// The 64 samples of a block of dequantized coefficients, both in row-major
/// order.
#[verifier::opaque]
pub open spec fn idct_spec(f: Seq<int>) -> Seq<u8> {
    Seq::new(64, |i: int| level_shift(column_pass(f, i / 8, i % 8)))
}

/// The samples of a block of decoded coefficients under a quantization
/// table.
pub open spec fn block_samples(block: Seq<int>, table: Seq<u16>) -> Seq<u8> {
    idct_spec(dequantize_spec(block, table))
}

/// A block without any energy is uniformly mid-grey: the transform of 64
/// zero coefficients is 64 samples of 128.
pub proof fn lemma_idct_of_zero()
    ensures
        idct_spec(zero_block()) == Seq::new(64, |i: int| 128u8),
{
    let f = zero_block();
    reveal(idct_spec);
    reveal(dot8);
    assert forall|i: int| 0 <= i < 64 implies #[trigger] idct_spec(f)[i] == 128u8 by {
        let x = i % 8;
        let y = i / 8;
        assert forall|v: int| 0 <= v < 8 implies #[trigger] row_pass(f, v, x) == 0 by {
            assert(f[8 * v] == 0 && f[8 * v + 1] == 0 && f[8 * v + 2] == 0 && f[8 * v + 3] == 0);
            assert(f[8 * v + 4] == 0 && f[8 * v + 5] == 0 && f[8 * v + 6] == 0 && f[8 * v + 7]
                == 0);
        }
        assert(row_pass(f, 0, x) == 0 && row_pass(f, 1, x) == 0 && row_pass(f, 2, x) == 0
            && row_pass(f, 3, x) == 0);
        assert(row_pass(f, 4, x) == 0 && row_pass(f, 5, x) == 0 && row_pass(f, 6, x) == 0
            && row_pass(f, 7, x) == 0);
        assert(column_pass(f, y, x) == 0);
    }
    assert(idct_spec(f) =~= Seq::new(64, |i: int| 128u8));
}

/// Dequantizing leaves zero coefficients zero, whatever the table.
pub proof fn lemma_dequantize_zero(table: Seq<u16>)
    ensures
        dequantize_spec(zero_block(), table) == zero_block(),
{
    assert(dequantize_spec(zero_block(), table) =~= zero_block());
}

/// Multiplies every coefficient by the table entry for its zig-zag position
/// and keeps the product within the working range.
pub fn dequantize(block: &[i32; 64], table: &QuantTable) -> (r: [i32; 64])
    ensures
        block_ints(r@) == dequantize_spec(block_ints(block@), table@.values),
        forall|i: int| 0 <= i < 64 ==> coefficient_in_range(#[trigger] r@[i] as int),
{
    let values = table.values();
    let mut out: [i32; 64] = [0i32; 64];
    let mut n: usize = 0;
    while n < 64
        invariant
            n <= 64,
            values@ == table@.values,
            values@.len() == 64,
            forall|i: int|
                0 <= i < n ==> #[trigger] out@[i] as int == clamp_coefficient(
                    block@[i] * values@[unzigzag(i)],
                ),
        decreases 64 - n,
    {
        proof {
            crate::block::lemma_zigzag_permutes();
            assert(0 <= unzigzag(n as int) < 64);
        }
        let q = values[UNZIGZAG[n] as usize] as i64;
        let c = block[n] as i64;
        assert(-0x8000_0000 * 0x1_0000 <= c * q <= 0x8000_0000 * 0x1_0000) by (nonlinear_arith)
            requires
                -0x8000_0000 <= c <= 0x8000_0000,
                0 <= q <= 0x1_0000,
        ;
        let product = c * q;
        out[n] = if product < -32768 {
            -32768
        } else if product > 32767 {
            32767
        } else {
            product as i32
        };
        n += 1;
    }
    proof {
        assert(block_ints(out@) =~= dequantize_spec(block_ints(block@), table@.values));
    }
    out
}

/// The weight of frequency `u` in sample `x`.
fn weight(x: usize, u: usize) -> (w: i64)
    requires
        x < 8,
        u < 8,
    ensures
        w == basis(x as int, u as int),
        -BASIS_MAX <= w <= BASIS_MAX,
{
    proof {
        lemma_basis_bound(x as int, u as int);
    }
    if u == 0 {
        2896
    } else {
        assert((2 * x + 1) * u <= 105) by (nonlinear_arith)
            requires
                x < 8,
                u < 8,
        ;
        COSINES[((2 * x + 1) * u) % 32] as i64
    }
}

/// One weighted term of a pass.
fn term(x: usize, u: usize, a: i64) -> (t: i64)
    requires
        x < 8,
        u < 8,
        -PASS_MAX <= a <= PASS_MAX,
    ensures
        t == basis(x as int, u as int) * a,
        -BASIS_MAX * PASS_MAX <= t <= BASIS_MAX * PASS_MAX,
{
    let w = weight(x, u);
    assert(-4096 * 0x4000_0000_0000 <= w * a <= 4096 * 0x4000_0000_0000) by (nonlinear_arith)
        requires
            -4096 <= w <= 4096,
            -0x4000_0000_0000 <= a <= 0x4000_0000_0000,
    ;
    w * a
}

/// The weighted sum of eight values for sample `x`.
fn weighted_sum(x: usize, a: [i64; 8]) -> (s: i64)
    requires
        x < 8,
        forall|i: int| 0 <= i < 8 ==> -PASS_MAX <= #[trigger] a@[i] <= PASS_MAX,
    ensures
        s == dot8(
            x as int,
            a@[0] as int,
            a@[1] as int,
            a@[2] as int,
            a@[3] as int,
            a@[4] as int,
            a@[5] as int,
            a@[6] as int,
            a@[7] as int,
        ),
        -8 * BASIS_MAX * PASS_MAX <= s <= 8 * BASIS_MAX * PASS_MAX,
{
    proof {
        reveal(dot8);
    }
    term(x, 0, a[0]) + term(x, 1, a[1]) + term(x, 2, a[2]) + term(x, 3, a[3]) + term(x, 4, a[4])
        + term(x, 5, a[5]) + term(x, 6, a[6]) + term(x, 7, a[7])
}

/// Rounds a transform value scaled by 2^26, raises it by 128 and keeps it
/// within 0 to 255.
fn shift_level(s: i64) -> (r: u8)
    requires
        -8 * BASIS_MAX * PASS_MAX <= s <= 8 * BASIS_MAX * PASS_MAX,
    ensures
        r == level_shift(s as int),
{
    let t = s + 0x200_0000 + 128 * 0x400_0000;
    if t < 0 {
        0
    } else {
        let q = t / 0x400_0000;
        if q > 255 {
            255
        } else {
            q as u8
        }
    }
}

/// The inverse cosine transform of a block of coefficients: 64 samples in
/// row-major order, level-shifted to the range 0 to 255.
pub fn idct(f: &[i32; 64]) -> (r: [u8; 64])
    ensures
        r@ == idct_spec(block_ints(f@)),
{
    let ghost g = block_ints(f@);
    let mut rows: [i64; 64] = [0i64; 64];
    let mut v: usize = 0;
    while v < 8
        invariant
            v <= 8,
            g == block_ints(f@),
            forall|i: int|
                0 <= i < 8 * v ==> #[trigger] rows@[i] as int == row_pass(g, i / 8, i % 8) && -8
                    * 4096 * 0x8000_0000 <= rows@[i] <= 8 * 4096 * 0x8000_0000,
        decreases 8 - v,
    {
        let a: [i64; 8] = [
            f[8 * v] as i64,
            f[8 * v + 1] as i64,
            f[8 * v + 2] as i64,
            f[8 * v + 3] as i64,
            f[8 * v + 4] as i64,
            f[8 * v + 5] as i64,
            f[8 * v + 6] as i64,
            f[8 * v + 7] as i64,
        ];
        let mut x: usize = 0;
        while x < 8
            invariant
                x <= 8,
                v < 8,
                g == block_ints(f@),
                forall|i: int| 0 <= i < 8 ==> #[trigger] a@[i] == f@[8 * v + i],
                forall|i: int|
                    0 <= i < 8 * v + x ==> #[trigger] rows@[i] as int == row_pass(g, i / 8, i % 8)
                        && -8 * 4096 * 0x8000_0000 <= rows@[i] <= 8 * 4096 * 0x8000_0000,
            decreases 8 - x,
        {
            let s = row_sum(x, a);
            rows[8 * v + x] = s;
            x += 1;
        }
        v += 1;
    }
    let mut out: [u8; 64] = [0u8; 64];
    let mut x: usize = 0;
    while x < 8
        invariant
            x <= 8,
            forall|i: int|
                0 <= i < 64 ==> #[trigger] rows@[i] as int == row_pass(g, i / 8, i % 8) && -8 * 4096
                    * 0x8000_0000 <= rows@[i] <= 8 * 4096 * 0x8000_0000,
            forall|i: int|
                0 <= i < 64 && i % 8 < x ==> #[trigger] out@[i] == level_shift(
                    column_pass(g, i / 8, i % 8),
                ),
        decreases 8 - x,
    {
        let a: [i64; 8] = [
            rows[x],
            rows[8 + x],
            rows[16 + x],
            rows[24 + x],
            rows[32 + x],
            rows[40 + x],
            rows[48 + x],
            rows[56 + x],
        ];
        proof {
            assert forall|j: int| 0 <= j < 8 implies #[trigger] a@[j] as int == row_pass(
                g,
                j,
                x as int,
            ) && -PASS_MAX <= a@[j] <= PASS_MAX by {
                assert(a@[j] == rows@[8 * j + x]);
                assert((8 * j + x) / 8 == j && (8 * j + x) % 8 == x);
            }
        }
        let mut y: usize = 0;
        while y < 8
            invariant
                y <= 8,
                x < 8,
                forall|j: int|
                    0 <= j < 8 ==> #[trigger] a@[j] as int == row_pass(g, j, x as int) && -PASS_MAX
                        <= a@[j] <= PASS_MAX,
                forall|i: int|
                    0 <= i < 64 && (i % 8 < x || (i % 8 == x && i / 8 < y)) ==> #[trigger] out@[i]
                        == level_shift(column_pass(g, i / 8, i % 8)),
            decreases 8 - y,
        {
            let s = weighted_sum(y, a);
            out[8 * y + x] = shift_level(s);
            proof {
                assert((8 * y + x) / 8 == y && (8 * y + x) % 8 == x);
            }
            y += 1;
        }
        x += 1;
    }
    proof {
        reveal(idct_spec);
        assert(out@ =~= idct_spec(g));
    }
    out
}

/// The first pass of the transform for one output column: the weighted sum
/// of the eight coefficients of a row.
fn row_sum(x: usize, a: [i64; 8]) -> (s: i64)
    requires
        x < 8,
        forall|i: int| 0 <= i < 8 ==> -0x8000_0000 <= #[trigger] a@[i] <= 0x8000_0000,
    ensures
        s == dot8(
            x as int,
            a@[0] as int,
            a@[1] as int,
            a@[2] as int,
            a@[3] as int,
            a@[4] as int,
            a@[5] as int,
            a@[6] as int,
            a@[7] as int,
        ),
        -8 * 4096 * 0x8000_0000 <= s <= 8 * 4096 * 0x8000_0000,
{
    proof {
        reveal(dot8);
    }
    small_term(x, 0, a[0]) + small_term(x, 1, a[1]) + small_term(x, 2, a[2]) + small_term(
        x,
        3,
        a[3],
    ) + small_term(x, 4, a[4]) + small_term(x, 5, a[5]) + small_term(x, 6, a[6]) + small_term(
        x,
        7,
        a[7],
    )
}

/// One weighted term of the first pass.
fn small_term(x: usize, u: usize, a: i64) -> (t: i64)
    requires
        x < 8,
        u < 8,
        -0x8000_0000 <= a <= 0x8000_0000,
    ensures
        t == basis(x as int, u as int) * a,
        -4096 * 0x8000_0000 <= t <= 4096 * 0x8000_0000,
{
    let w = weight(x, u);
    assert(-4096 * 0x8000_0000 <= w * a <= 4096 * 0x8000_0000) by (nonlinear_arith)
        requires
            -4096 <= w <= 4096,
            -0x8000_0000 <= a <= 0x8000_0000,
    ;
    w * a
}

} // verus!
