//! Decoding one 8×8 block of coefficients from the entropy-coded data.
use crate::error::ErrorKind;
use crate::huffman::{HuffmanSpec, HuffmanTable};
use crate::reader::{bits_value, BitReader};
use vstd::arithmetic::power2::{lemma2_to64, lemma_pow2_strictly_increases, lemma_pow2_unfold, pow2};
use vstd::prelude::*;

verus! {

/// For each position in zig-zag order, the row-major index of the
/// coefficient stored there.
pub const ZIGZAG: [u8; 64] = [
    0, 1, 8, 16, 9, 2, 3, 10,
    17, 24, 32, 25, 18, 11, 4, 5,
    12, 19, 26, 33, 40, 48, 41, 34,
    27, 20, 13, 6, 7, 14, 21, 28,
    35, 42, 49, 56, 57, 50, 43, 36,
    29, 22, 15, 23, 30, 37, 44, 51,
    58, 59, 52, 45, 38, 31, 39, 46,
    53, 60, 61, 54, 47, 55, 62, 63,
];

/// For each row-major index, the position of that coefficient in zig-zag
/// order.
pub const UNZIGZAG: [u8; 64] = [
    0, 1, 5, 6, 14, 15, 27, 28,
    2, 4, 7, 13, 16, 26, 29, 42,
    3, 8, 12, 17, 25, 30, 41, 43,
    9, 11, 18, 24, 31, 40, 44, 53,
    10, 19, 23, 32, 39, 45, 52, 54,
    20, 22, 33, 38, 46, 51, 55, 60,
    21, 34, 37, 47, 50, 56, 59, 61,
    35, 36, 48, 49, 57, 58, 62, 63,
];

/// The row-major index of the coefficient at position `k` of the zig-zag
/// order.
pub open spec fn zigzag(k: int) -> int {
    ZIGZAG@[k] as int
}

/// The position in zig-zag order of the coefficient with row-major index
/// `n`.
pub open spec fn unzigzag(n: int) -> int {
    UNZIGZAG@[n] as int
}

/// The zig-zag order is a permutation of the 64 indices, and `unzigzag`
/// undoes it.
pub proof fn lemma_zigzag_permutes()
    ensures
        forall|k: int| 0 <= k < 64 ==> 0 <= #[trigger] zigzag(k) < 64 && unzigzag(zigzag(k)) == k,
        forall|n: int| 0 <= n < 64 ==> 0 <= #[trigger] unzigzag(n) < 64 && zigzag(unzigzag(n)) == n,
{
    assert forall|k: int| 0 <= k < 64 implies 0 <= #[trigger] zigzag(k) < 64 && unzigzag(zigzag(k))
        == k by {
        lemma_zigzag_at(k);
    }
    assert forall|n: int| 0 <= n < 64 implies 0 <= #[trigger] unzigzag(n) < 64 && zigzag(
        unzigzag(n),
    ) == n by {
        lemma_unzigzag_at(n);
    }
}

proof fn lemma_zigzag_at(k: int)
    requires
        0 <= k < 64,
    ensures
        0 <= zigzag(k) < 64,
        unzigzag(zigzag(k)) == k,
{
}

proof fn lemma_unzigzag_at(n: int)
    requires
        0 <= n < 64,
    ensures
        0 <= unzigzag(n) < 64,
        zigzag(unzigzag(n)) == n,
{
}

/// The signed value that `category` extra bits spell. A value whose leading
/// bit is 0 is negative: it stands for itself less the largest number of
/// that many bits.
pub open spec fn extend(value: nat, category: nat) -> int {
    if category == 0 {
        0
    } else if value < pow2((category - 1) as nat) {
        value - (pow2(category) - 1)
    } else {
        value as int
    }
}

/// Reads a signed value of the given magnitude category from the head of
/// `bits`: the value, and the bits that follow it.
pub open spec fn read_value_spec(bits: Seq<bool>, category: nat) -> Result<
    (int, Seq<bool>),
    ErrorKind,
> {
    if bits.len() < category {
        Err(ErrorKind::UnexpectedEndOfStream)
    } else {
        Ok((extend(bits_value(bits, category), category), bits.skip(category as int)))
    }
}

/// The smallest and largest value that a coefficient may take.
pub open spec fn coefficient_in_range(v: int) -> bool {
    -32768 <= v <= 32767
}

/// Decodes a DC difference: a Huffman symbol whose low half is the
/// magnitude category, then that many raw bits for the difference itself.
/// A category above 11 is malformed scan data.
pub open spec fn dc_difference_spec(dc: HuffmanSpec, bits: Seq<bool>) -> Result<
    (int, Seq<bool>),
    ErrorKind,
> {
    match dc.decode(bits) {
        Err(e) => Err(e),
        Ok((symbol, n)) => {
            if symbol % 16 > 11 {
                Err(ErrorKind::MalformedScanData)
            } else {
                read_value_spec(bits.skip(n as int), (symbol % 16) as nat)
            }
        },
    }
}

/// Decodes a DC coefficient: the predictor plus the decoded difference,
/// exactly. A sum outside the 16-bit signed range is malformed scan data.
pub open spec fn decode_dc_spec(dc: HuffmanSpec, bits: Seq<bool>, predictor: int) -> Result<
    (int, Seq<bool>),
    ErrorKind,
> {
    match dc_difference_spec(dc, bits) {
        Err(e) => Err(e),
        Ok((difference, rest)) => {
            if coefficient_in_range(predictor + difference) {
                Ok((predictor + difference, rest))
            } else {
                Err(ErrorKind::MalformedScanData)
            }
        },
    }
}

/// Decodes the AC coefficients from zig-zag position `k` on into `block`,
/// which is in row-major order. Each symbol's high half is a run of zeros
/// to pass over, its low half the magnitude category of the coefficient
/// that follows the run. The symbol 0 ends the block early. A run that
/// leads past position 63 is malformed scan data.
pub open spec fn decode_ac_spec(ac: HuffmanSpec, bits: Seq<bool>, k: int, block: Seq<int>) -> Result<
    (Seq<int>, Seq<bool>),
    ErrorKind,
>
    decreases 64 - k,
{
    if k < 1 || k >= 64 {
        Ok((block, bits))
    } else {
        match ac.decode(bits) {
            Err(e) => Err(e),
            Ok((symbol, n)) => {
                if symbol == 0 {
                    Ok((block, bits.skip(n as int)))
                } else if k + symbol / 16 > 63 {
                    Err(ErrorKind::MalformedScanData)
                } else {
                    match read_value_spec(bits.skip(n as int), (symbol % 16) as nat) {
                        Err(e) => Err(e),
                        Ok((value, rest)) => decode_ac_spec(
                            ac,
                            rest,
                            k + symbol / 16 + 1,
                            block.update(zigzag(k + symbol / 16), value),
                        ),
                    }
                }
            },
        }
    }
}

/// A block of 64 zero coefficients.
pub open spec fn zero_block() -> Seq<int> {
    Seq::new(64, |i: int| 0int)
}

/// Decodes one block: its 64 coefficients in row-major order, and the bits
/// that follow it. The DC coefficient, at index 0, is the predictor for the
/// component's next block.
pub open spec fn decode_block_spec(
    dc: HuffmanSpec,
    ac: HuffmanSpec,
    bits: Seq<bool>,
    predictor: int,
) -> Result<(Seq<int>, Seq<bool>), ErrorKind> {
    match decode_dc_spec(dc, bits, predictor) {
        Err(e) => Err(e),
        Ok((value, rest)) => decode_ac_spec(ac, rest, 1, zero_block().update(0, value)),
    }
}

/// The coefficients of a block as mathematical integers.
pub open spec fn block_ints(block: Seq<i32>) -> Seq<int> {
    Seq::new(block.len(), |i: int| block[i] as int)
}

/// Whether all coefficients of a block lie in the coefficient range.
pub open spec fn block_in_range(block: Seq<int>) -> bool {
    block.len() == 64 && forall|i: int| 0 <= i < 64 ==> coefficient_in_range(#[trigger] block[i])
}

/// An extended value of a category up to 15 fits in 16 bits, sign included.
pub proof fn lemma_extend_range(value: nat, category: nat)
    requires
        category <= 15,
        value < pow2(category),
    ensures
        -32767 <= extend(value, category) <= 32767,
        category <= 11 ==> -2047 <= extend(value, category) <= 2047,
{
    lemma2_to64();
    if category < 15 {
        lemma_pow2_strictly_increases(category, 15);
    }
    if category < 11 {
        lemma_pow2_strictly_increases(category, 11);
    }
}

/// Every coefficient that AC decoding stores lies in the coefficient range.
pub proof fn lemma_decode_ac_range(ac: HuffmanSpec, bits: Seq<bool>, k: int, block: Seq<int>)
    requires
        block_in_range(block),
    ensures
        decode_ac_spec(ac, bits, k, block) matches Ok((out, _)) ==> block_in_range(out) && out[0]
            == block[0],
    decreases 64 - k,
{
    if 1 <= k < 64 {
        match ac.decode(bits) {
            Err(_) => {},
            Ok((symbol, n)) => {
                if symbol != 0 && k + symbol / 16 <= 63 {
                    let category = (symbol % 16) as nat;
                    let after = bits.skip(n as int);
                    if after.len() >= category {
                        let value = extend(bits_value(after, category), category);
                        crate::reader::lemma_bits_value_bound(after, category);
                        lemma_extend_range(bits_value(after, category), category);
                        lemma_zigzag_at(k + symbol / 16);
                        lemma_zigzag_start(k + symbol / 16);
                        lemma_decode_ac_range(
                            ac,
                            after.skip(category as int),
                            k + symbol / 16 + 1,
                            block.update(zigzag(k + symbol / 16), value),
                        );
                    }
                }
            },
        }
    }
}

/// Only the first position of the zig-zag order holds the DC coefficient.
pub proof fn lemma_zigzag_start(k: int)
    requires
        0 <= k < 64,
    ensures
        zigzag(k) == 0 <==> k == 0,
{
    lemma_zigzag_at(k);
    lemma_zigzag_at(0);
}

/// A DC difference has at most eleven bits, the new DC coefficient is the
/// predictor plus the difference and nothing else, and a decoded block keeps
/// all its coefficients in the coefficient range.
pub proof fn lemma_decode_block_range(
    dc: HuffmanSpec,
    ac: HuffmanSpec,
    bits: Seq<bool>,
    predictor: int,
)
    ensures
        dc_difference_spec(dc, bits) matches Ok((difference, _)) ==> -2047 <= difference <= 2047,
        decode_dc_spec(dc, bits, predictor) matches Ok((value, _)) ==> coefficient_in_range(value)
            && (dc_difference_spec(dc, bits) matches Ok((difference, _)) && value == predictor
            + difference),
        decode_block_spec(dc, ac, bits, predictor) matches Ok((block, _)) ==> block_in_range(block)
            && (decode_dc_spec(dc, bits, predictor) matches Ok((value, _)) && block[0] == value),
{
    match dc.decode(bits) {
        Err(_) => {},
        Ok((symbol, n)) => {
            let category = (symbol % 16) as nat;
            let after = bits.skip(n as int);
            if category <= 11 && after.len() >= category {
                crate::reader::lemma_bits_value_bound(after, category);
                lemma_extend_range(bits_value(after, category), category);
                let difference = extend(bits_value(after, category), category);
                if coefficient_in_range(predictor + difference) {
                    lemma_decode_ac_range(
                        ac,
                        after.skip(category as int),
                        1,
                        zero_block().update(0, predictor + difference),
                    );
                }
            }
        },
    }
}

/// What can go wrong inside the entropy-coded data.
pub open spec fn is_scan_data_failure(e: ErrorKind) -> bool {
    e == ErrorKind::UnexpectedEndOfStream || e == ErrorKind::InvalidHuffmanCode || e
        == ErrorKind::MalformedScanData
}

/// Decoding AC coefficients fails only in the ways of entropy-coded data.
pub proof fn lemma_decode_ac_failure(ac: HuffmanSpec, bits: Seq<bool>, k: int, block: Seq<int>)
    ensures
        decode_ac_spec(ac, bits, k, block) matches Err(e) ==> is_scan_data_failure(e),
    decreases 64 - k,
{
    if 1 <= k < 64 {
        ac.lemma_decode_failure(bits, 1);
        match ac.decode(bits) {
            Err(_) => {},
            Ok((symbol, n)) => {
                if symbol != 0 && k + symbol / 16 <= 63 {
                    match read_value_spec(bits.skip(n as int), (symbol % 16) as nat) {
                        Err(_) => {},
                        Ok((value, rest)) => {
                            lemma_decode_ac_failure(
                                ac,
                                rest,
                                k + symbol / 16 + 1,
                                block.update(zigzag(k + symbol / 16), value),
                            );
                        },
                    }
                }
            },
        }
    }
}

/// Decoding a block fails only in the ways of entropy-coded data.
pub proof fn lemma_decode_block_failure(
    dc: HuffmanSpec,
    ac: HuffmanSpec,
    bits: Seq<bool>,
    predictor: int,
)
    ensures
        decode_block_spec(dc, ac, bits, predictor) matches Err(e) ==> is_scan_data_failure(e),
{
    dc.lemma_decode_failure(bits, 1);
    match decode_dc_spec(dc, bits, predictor) {
        Err(_) => {},
        Ok((value, rest)) => {
            lemma_decode_ac_failure(ac, rest, 1, zero_block().update(0, value));
        },
    }
}

/// Two to the power `n`, for exponents up to 16.
fn power_of_two(n: u8) -> (r: u32)
    requires
        n <= 16,
    ensures
        r == pow2(n as nat),
        r <= 65536,
{
    let mut r: u32 = 1;
    let mut i: u8 = 0;
    proof {
        lemma2_to64();
    }
    while i < n
        invariant
            i <= n <= 16,
            r == pow2(i as nat),
            r <= 65536,
        decreases n - i,
    {
        proof {
            lemma2_to64();
            lemma_pow2_unfold((i + 1) as nat);
            if i + 1 < 16 {
                lemma_pow2_strictly_increases((i + 1) as nat, 16);
            }
        }
        r = r * 2;
        i += 1;
    }
    r
}

/// Reads a signed value of the given magnitude category.
pub fn read_value(bits: &mut BitReader, category: u8) -> (r: Result<i32, ErrorKind>)
    requires
        category <= 15,
    ensures
        final(bits).bytes() == old(bits).bytes(),
        final(bits).end() == old(bits).end(),
        match read_value_spec(old(bits).rest(), category as nat) {
            Ok((value, rest)) => r matches Ok(v) && v == value && final(bits).rest() == rest
                && -32767 <= v <= 32767 && (category <= 11 ==> -2047 <= v <= 2047),
            Err(e) => r matches Err(f) && f == e,
        },
{
    match bits.read_bits(category) {
        None => Err(ErrorKind::UnexpectedEndOfStream),
        Some(raw) => {
            proof {
                lemma2_to64();
                lemma_extend_range(bits_value(old(bits).rest(), category as nat), category as nat);
                lemma_pow2_strictly_increases(category as nat, 16);
            }
            if category == 0 {
                Ok(0)
            } else {
                let half = power_of_two(category - 1);
                let full = power_of_two(category);
                if (raw as u32) < half {
                    Ok(raw as i32 - (full as i32 - 1))
                } else {
                    Ok(raw as i32)
                }
            }
        },
    }
}

/// Decodes one block from the bit stream. `dc` and `ac` are the component's
/// Huffman tables and `predictor` is the DC coefficient of the component's
/// previous block, or 0 for its first.
pub fn decode_block(
    dc: &HuffmanTable,
    ac: &HuffmanTable,
    bits: &mut BitReader,
    predictor: i32,
) -> (r: Result<[i32; 64], ErrorKind>)
    requires
        coefficient_in_range(predictor as int),
    ensures
        final(bits).bytes() == old(bits).bytes(),
        final(bits).end() == old(bits).end(),
        match decode_block_spec(dc@, ac@, old(bits).rest(), predictor as int) {
            Ok((block, rest)) => r matches Ok(b) && block_ints(b@) == block && final(bits).rest()
                == rest && block_in_range(block),
            Err(e) => r matches Err(f) && f == e,
        },
{
    proof {
        lemma_decode_block_range(dc@, ac@, old(bits).rest(), predictor as int);
    }
    let mut block: [i32; 64] = [0i32; 64];
    let symbol = match dc.decode_symbol(bits) {
        Err(e) => {
            return Err(e);
        },
        Ok(symbol) => symbol,
    };
    let category = symbol % 16;
    if category > 11 {
        return Err(ErrorKind::MalformedScanData);
    }
    let difference = match read_value(bits, category) {
        Err(e) => {
            return Err(e);
        },
        Ok(v) => v,
    };
    let value = predictor + difference;
    if value < -32768 || value > 32767 {
        return Err(ErrorKind::MalformedScanData);
    }
    block[0] = value;
    proof {
        assert(block_ints(block@) =~= zero_block().update(0, value as int));
    }
    let mut k: usize = 1;
    while k < 64
        invariant
            1 <= k <= 64,
            bits.bytes() == old(bits).bytes(),
            bits.end() == old(bits).end(),
            decode_ac_spec(ac@, bits.rest(), k as int, block_ints(block@)) == decode_block_spec(
                dc@,
                ac@,
                old(bits).rest(),
                predictor as int,
            ),
            decode_block_spec(dc@, ac@, old(bits).rest(), predictor as int) matches Ok((b, _))
                ==> block_in_range(b),
        decreases 64 - k,
    {
        let ghost before = block_ints(block@);
        let symbol = match ac.decode_symbol(bits) {
            Err(e) => {
                return Err(e);
            },
            Ok(symbol) => symbol,
        };
        if symbol == 0 {
            return Ok(block);
        }
        let at = k + (symbol / 16) as usize;
        if at > 63 {
            return Err(ErrorKind::MalformedScanData);
        }
        let value = match read_value(bits, symbol % 16) {
            Err(e) => {
                return Err(e);
            },
            Ok(v) => v,
        };
        proof {
            lemma_zigzag_at(at as int);
        }
        block[ZIGZAG[at] as usize] = value;
        proof {
            assert(block_ints(block@) =~= before.update(zigzag(at as int), value as int));
        }
        k = at + 1;
    }
    Ok(block)
}

} // verus!
