//! Canonical Huffman tables: how the codes follow from the length histogram
//! and the symbol order, and how one symbol is decoded from a bit stream.
use crate::error::{prepend, ErrorKind};
use crate::reader::{bits_value, BitReader};
use vstd::arithmetic::power2::{lemma2_to64, lemma_pow2_strictly_increases, lemma_pow2_unfold, pow2};
use vstd::prelude::*;

verus! {

/// How many symbols have a code shorter than `i + 1` bits.
pub open spec fn symbols_before(counts: Seq<u8>, i: nat) -> nat
    decreases i,
{
    if i == 0 {
        0
    } else {
        symbols_before(counts, (i - 1) as nat) + counts[i - 1] as nat
    }
}

/// The first code of `i + 1` bits. Codes of one length are consecutive
/// numbers; going to the next length, the running code gains a zero bit.
pub open spec fn first_code(counts: Seq<u8>, i: nat) -> nat
    decreases i,
{
    if i == 0 {
        0
    } else {
        (first_code(counts, (i - 1) as nat) + counts[i - 1] as nat) * 2
    }
}

/// A Huffman table as the segment gives it: for each code length from 1 to
/// 16 the number of codes of that length, and the symbols in code order.
pub struct HuffmanSpec {
    pub counts: Seq<u8>,
    pub symbols: Seq<u8>,
}

impl HuffmanSpec {
    /// There are sixteen counts and one symbol per counted code.
    pub open spec fn wf(self) -> bool {
        &&& self.counts.len() == 16
        &&& self.symbols.len() == symbols_before(self.counts, 16)
    }

    /// Whether `value` is one of the codes of `n` bits.
    pub open spec fn has_code(self, n: nat, value: nat) -> bool {
        &&& 1 <= n <= 16
        &&& first_code(self.counts, (n - 1) as nat) <= value
        &&& value < first_code(self.counts, (n - 1) as nat) + self.counts[n - 1]
    }

    /// The position, in symbol order, of the symbol whose code of `n` bits
    /// is `value`.
    pub open spec fn index_for(self, n: nat, value: nat) -> int {
        symbols_before(self.counts, (n - 1) as nat) + value - first_code(
            self.counts,
            (n - 1) as nat,
        )
    }

    /// Decoding with the first `n - 1` bits already found to be no code:
    /// the symbol and the number of bits it took.
    pub open spec fn decode_at(self, bits: Seq<bool>, n: nat) -> Result<(u8, nat), ErrorKind>
        decreases 17 - n,
    {
        if n < 1 || n > 16 {
            Err(ErrorKind::InvalidHuffmanCode)
        } else if bits.len() < n {
            Err(ErrorKind::UnexpectedEndOfStream)
        } else if self.has_code(n, bits_value(bits, n)) {
            Ok((self.symbols[self.index_for(n, bits_value(bits, n))], n))
        } else {
            self.decode_at(bits, n + 1)
        }
    }

    /// The symbol at the head of `bits` and the length of its code: the
    /// shortest prefix of `bits` that spells a code decides. The stream
    /// running dry before that is `UnexpectedEndOfStream`; sixteen bits that
    /// spell no code are `InvalidHuffmanCode`.
    pub open spec fn decode(self, bits: Seq<bool>) -> Result<(u8, nat), ErrorKind> {
        self.decode_at(bits, 1)
    }

    /// The code length of the `k`-th symbol, searching from length `n`.
    pub open spec fn length_from(self, k: nat, n: nat) -> nat
        decreases 17 - n,
    {
        if n < 1 || n >= 16 {
            16
        } else if k < symbols_before(self.counts, n) {
            n
        } else {
            self.length_from(k, n + 1)
        }
    }

    /// The code length of the `k`-th symbol.
    pub open spec fn length_of(self, k: nat) -> nat {
        self.length_from(k, 1)
    }

    /// The code of the `k`-th symbol, as a number.
    pub open spec fn code_of(self, k: nat) -> nat {
        let n = self.length_of(k);
        (first_code(self.counts, (n - 1) as nat) + k - symbols_before(self.counts, (n - 1) as nat)) as nat
    }

    /// Every code fits in the number of bits it is meant to have. A table
    /// whose histogram claims more codes of some length than exist fails
    /// this, and its surplus symbols can never be decoded.
    pub open spec fn codes_fit(self) -> bool {
        forall|i: nat|
            i < 16 && self.counts[i as int] > 0 ==> #[trigger] first_code(self.counts, i)
                + self.counts[i as int] <= pow2(i + 1)
    }

    /// The bits that encode the symbols at positions `ks`, one code after
    /// the other.
    pub open spec fn encode(self, ks: Seq<nat>) -> Seq<bool>
        decreases ks.len(),
    {
        if ks.len() == 0 {
            Seq::empty()
        } else {
            number_bits(self.code_of(ks[0]), self.length_of(ks[0])) + self.encode(ks.skip(1))
        }
    }

    /// The first `count` symbols decoded from `bits`, or `None` if one of
    /// them cannot be decoded.
    pub open spec fn decode_many(self, bits: Seq<bool>, count: nat) -> Option<Seq<u8>>
        decreases count,
    {
        if count == 0 {
            Some(Seq::empty())
        } else {
            match self.decode(bits) {
                Err(_) => None,
                Ok((symbol, n)) => match self.decode_many(bits.skip(n as int), (count - 1) as nat) {
                    None => None,
                    Some(others) => Some(seq![symbol] + others),
                },
            }
        }
    }
}

/// The `n` bits that spell `value`, most significant first.
pub open spec fn number_bits(value: nat, n: nat) -> Seq<bool>
    decreases n,
{
    if n == 0 {
        Seq::empty()
    } else {
        number_bits(value / 2, (n - 1) as nat).push(value % 2 == 1)
    }
}

/// The first code of a length stays well inside 32 bits.
pub proof fn lemma_first_code_bound(counts: Seq<u8>, i: nat)
    requires
        i <= 16,
    ensures
        first_code(counts, i) + 510 <= 510 * pow2(i),
        first_code(counts, i) <= 510 * 65536,
        symbols_before(counts, i) <= 255 * i,
    decreases i,
{
    lemma2_to64();
    if i > 0 {
        lemma_first_code_bound(counts, (i - 1) as nat);
        lemma_pow2_unfold(i);
    }
    if i < 16 {
        lemma_pow2_strictly_increases(i, 16);
    }
}

/// The number of symbols before a length grows with the length.
pub proof fn lemma_symbols_before_monotonic(counts: Seq<u8>, i: nat, j: nat)
    requires
        i <= j,
    ensures
        symbols_before(counts, i) <= symbols_before(counts, j),
    decreases j,
{
    if i < j {
        lemma_symbols_before_monotonic(counts, i, (j - 1) as nat);
    }
}

impl HuffmanSpec {
    /// Decoding a symbol fails in two ways only: the bits run out, or
    /// sixteen of them spell no code.
    pub proof fn lemma_decode_failure(self, bits: Seq<bool>, n: nat)
        ensures
            self.decode_at(bits, n) matches Err(e) ==> e == ErrorKind::UnexpectedEndOfStream || e
                == ErrorKind::InvalidHuffmanCode,
        decreases 17 - n,
    {
        if 1 <= n <= 16 && bits.len() >= n && !self.has_code(n, bits_value(bits, n)) {
            self.lemma_decode_failure(bits, n + 1);
        }
    }
}

/// `number_bits` yields as many bits as asked for.
pub proof fn lemma_number_bits_len(value: nat, n: nat)
    ensures
        number_bits(value, n).len() == n,
    decreases n,
{
    if n > 0 {
        lemma_number_bits_len(value / 2, (n - 1) as nat);
    }
}

/// Reading back the first `m` of the `n` bits that spell `value` gives
/// `value` without its last `n - m` binary digits.
pub proof fn lemma_number_bits_value(value: nat, n: nat, rest: Seq<bool>, m: nat)
    requires
        m <= n,
    ensures
        bits_value(number_bits(value, n) + rest, m) == (value / pow2((n - m) as nat)) % pow2(m),
    decreases n,
{
    lemma2_to64();
    let bits = number_bits(value, n) + rest;
    lemma_number_bits_len(value, n);
    if m == 0 {
        assert(pow2(0) == 1);
    } else {
        lemma_number_bits_len(value / 2, (n - 1) as nat);
        let shorter = number_bits(value / 2, (n - 1) as nat) + rest;
        let d = pow2((n - m) as nat);
        vstd::arithmetic::power2::lemma_pow2_pos((n - m) as nat);
        vstd::arithmetic::power2::lemma_pow2_pos((m - 1) as nat);
        lemma_pow2_unfold(m);
        let inner = number_bits(value / 2, (n - 1) as nat);
        assert(number_bits(value, n) == inner.push(value % 2 == 1));
        assert forall|i: int| 0 <= i < n - 1 implies bits[i] == shorter[i] by {
            assert(bits[i] == inner[i]);
            assert(shorter[i] == inner[i]);
        }
        let n1 = (n - 1) as nat;
        let half_value = value / 2;
        if m < n {
            lemma_bits_value_prefix_of(bits, shorter, m);
            lemma_number_bits_value(half_value, n1, rest, m);
            let e1 = (n1 - m) as nat;
            assert(bits_value(shorter, m) == (half_value / pow2(e1)) % pow2(m));
            assert((n - m) as nat == e1 + 1);
            lemma_pow2_unfold((n - m) as nat);
            vstd::arithmetic::power2::lemma_pow2_pos(e1);
            vstd::arithmetic::div_mod::lemma_div_denominator(value as int, 2, pow2(e1) as int);
            assert(d == 2 * pow2(e1));
            assert(half_value / pow2(e1) == value / d);
        } else {
            let m1 = (m - 1) as nat;
            lemma_bits_value_prefix_of(bits, shorter, m1);
            lemma_number_bits_value(half_value, n1, rest, m1);
            let e1 = (n1 - m1) as nat;
            assert(e1 == 0);
            assert(pow2(0) == 1);
            assert(bits_value(shorter, m1) == (half_value / pow2(e1)) % pow2(m1));
            assert(half_value / 1 == half_value);
            assert(bits[m - 1] == (value % 2 == 1));
            let low = pow2(m1) as int;
            let v = value as int;
            assert(bits_value(shorter, m1) == (v / 2) % low);
            assert(bits_value(bits, m) == 2 * bits_value(bits, m1) + if bits[m - 1] {
                1nat
            } else {
                0nat
            });
            assert(bits_value(bits, m) == 2 * ((v / 2) % low) + v % 2);
            lemma_mod_doubles(v, low);
            assert(pow2(m) == 2 * low);
            assert((n - m) as nat == 0);
            assert(d == 1);
            assert(value / d == value);
        }
    }
}

/// Splitting off the last binary digit commutes with reducing modulo a
/// power of two.
proof fn lemma_mod_doubles(v: int, low: int)
    requires
        0 <= v,
        0 < low,
    ensures
        v % (2 * low) == 2 * ((v / 2) % low) + v % 2,
{
    let h = v / 2;
    let q = h / low;
    let r = h % low;
    vstd::arithmetic::div_mod::lemma_fundamental_div_mod(h, low);
    vstd::arithmetic::div_mod::lemma_mod_bound(h, low);
    assert(v == q * (2 * low) + (2 * r + v % 2)) by (nonlinear_arith)
        requires
            v == 2 * h + v % 2,
            h == low * q + r,
    ;
    vstd::arithmetic::div_mod::lemma_fundamental_div_mod_converse(v, 2 * low, q, 2 * r + v % 2);
}

/// The value of the first `n` bits depends on those bits alone.
pub proof fn lemma_bits_value_prefix_of(a: Seq<bool>, b: Seq<bool>, n: nat)
    requires
        forall|i: int| 0 <= i < n ==> a[i] == b[i],
    ensures
        bits_value(a, n) == bits_value(b, n),
    decreases n,
{
    if n > 0 {
        lemma_bits_value_prefix_of(a, b, (n - 1) as nat);
    }
}

/// The first code of a longer length is at least the end of a shorter
/// length's codes, shifted left by the difference in length.
pub proof fn lemma_first_code_grows(counts: Seq<u8>, i: nat, j: nat)
    requires
        i < j,
    ensures
        first_code(counts, j) >= pow2((j - i) as nat) * (first_code(counts, i) + counts[i as int] as nat),
    decreases j,
{
    lemma2_to64();
    let x = (first_code(counts, i) + counts[i as int] as nat) as int;
    let before = first_code(counts, (j - 1) as nat) as int;
    assert(first_code(counts, j) == (before + counts[j - 1] as nat) * 2);
    if j == i + 1 {
        assert(pow2((j - i) as nat) == 2);
    } else {
        lemma_first_code_grows(counts, i, (j - 1) as nat);
        lemma_pow2_unfold((j - i) as nat);
        let p = pow2((j - 1 - i) as nat) as int;
        assert(pow2((j - i) as nat) == 2 * p);
        assert(before >= p * x);
        assert((2 * p) * x == 2 * (p * x)) by (nonlinear_arith);
    }
}

impl HuffmanSpec {
    /// Where the code length of a symbol lies: the symbol is counted at that
    /// length and at no shorter one.
    pub proof fn lemma_length_from(self, k: nat, n: nat)
        requires
            1 <= n <= 16,
            symbols_before(self.counts, (n - 1) as nat) <= k < symbols_before(self.counts, 16),
        ensures
            n <= self.length_from(k, n) <= 16,
            symbols_before(self.counts, (self.length_from(k, n) - 1) as nat) <= k,
            k < symbols_before(self.counts, self.length_from(k, n)),
        decreases 17 - n,
    {
        if n < 16 && k >= symbols_before(self.counts, n) {
            self.lemma_length_from(k, n + 1);
        }
    }

    /// The code of a symbol is one of the codes of its length, and it names
    /// that symbol.
    pub proof fn lemma_code_of(self, k: nat)
        requires
            self.wf(),
            k < self.symbols.len(),
        ensures
            1 <= self.length_of(k) <= 16,
            self.has_code(self.length_of(k), self.code_of(k)),
            self.index_for(self.length_of(k), self.code_of(k)) == k,
            self.counts[self.length_of(k) - 1] > 0,
    {
        self.lemma_length_from(k, 1);
    }

    /// No proper prefix of a symbol's code is itself a code.
    pub proof fn lemma_prefix_free(self, k: nat, m: nat)
        requires
            self.wf(),
            k < self.symbols.len(),
            1 <= m < self.length_of(k),
        ensures
            !self.has_code(m, self.code_of(k) / pow2((self.length_of(k) - m) as nat)),
    {
        self.lemma_code_of(k);
        let n = self.length_of(k);
        let shift = pow2((n - m) as nat) as int;
        let x = (first_code(self.counts, (m - 1) as nat) + self.counts[m - 1]) as int;
        lemma_first_code_grows(self.counts, (m - 1) as nat, (n - 1) as nat);
        vstd::arithmetic::power2::lemma_pow2_pos((n - m) as nat);
        assert(shift * x == x * shift) by (nonlinear_arith);
        vstd::arithmetic::div_mod::lemma_div_by_multiple(x, shift);
        vstd::arithmetic::div_mod::lemma_div_is_ordered(x * shift, self.code_of(k) as int, shift);
    }

    /// Decoding inverts encoding, one symbol: the bits of a symbol's code,
    /// whatever follows them, decode to that symbol and use up exactly the
    /// code.
    pub proof fn lemma_decode_code(self, k: nat, rest: Seq<bool>)
        requires
            self.wf(),
            self.codes_fit(),
            k < self.symbols.len(),
        ensures
            self.decode(number_bits(self.code_of(k), self.length_of(k)) + rest) == Ok::<
                (u8, nat),
                ErrorKind,
            >((self.symbols[k as int], self.length_of(k))),
    {
        self.lemma_code_of(k);
        let n = self.length_of(k);
        let bits = number_bits(self.code_of(k), n) + rest;
        lemma_number_bits_len(self.code_of(k), n);
        assert(first_code(self.counts, (n - 1) as nat) + self.counts[n - 1] <= pow2(n));
        self.lemma_decode_code_from(k, rest, 1);
    }

    proof fn lemma_decode_code_from(self, k: nat, rest: Seq<bool>, m: nat)
        requires
            self.wf(),
            k < self.symbols.len(),
            self.code_of(k) < pow2(self.length_of(k)),
            1 <= m <= self.length_of(k) <= 16,
        ensures
            self.decode_at(number_bits(self.code_of(k), self.length_of(k)) + rest, m) == Ok::<
                (u8, nat),
                ErrorKind,
            >((self.symbols[k as int], self.length_of(k))),
        decreases self.length_of(k) - m,
    {
        let n = self.length_of(k);
        let code = self.code_of(k);
        let bits = number_bits(code, n) + rest;
        lemma_number_bits_len(code, n);
        lemma_number_bits_value(code, n, rest, m);
        let shift = pow2((n - m) as nat);
        vstd::arithmetic::power2::lemma_pow2_pos((n - m) as nat);
        vstd::arithmetic::power2::lemma_pow2_adds((n - m) as nat, m);
        assert(code / shift < pow2(m)) by {
            vstd::arithmetic::div_mod::lemma_fundamental_div_mod(code as int, shift as int);
            vstd::arithmetic::div_mod::lemma_mod_bound(code as int, shift as int);
            let q = (code / shift) as int;
            if q >= pow2(m) {
                assert(shift * q >= shift * pow2(m)) by (nonlinear_arith)
                    requires
                        q >= pow2(m),
                        shift > 0,
                ;
            }
        }
        vstd::arithmetic::div_mod::lemma_small_mod(code / shift, pow2(m));
        assert(bits_value(bits, m) == code / shift);
        assert(bits.len() >= m);
        if m == n {
            lemma2_to64();
            assert(shift == 1);
            assert(code / shift == code) by (nonlinear_arith)
                requires
                    shift == 1,
            ;
            self.lemma_code_of(k);
            assert(self.has_code(m, bits_value(bits, m)));
        } else {
            self.lemma_prefix_free(k, m);
            assert(!self.has_code(m, bits_value(bits, m)));
            self.lemma_decode_code_from(k, rest, m + 1);
        }
    }

    /// Decoding inverts encoding: for a table whose codes fit their lengths,
    /// the codes of any sequence of symbols, written one after the other and
    /// followed by anything, decode to that sequence of symbols.
    pub proof fn lemma_decode_inverts_encode(self, ks: Seq<nat>, rest: Seq<bool>)
        requires
            self.wf(),
            self.codes_fit(),
            forall|i: int| 0 <= i < ks.len() ==> ks[i] < self.symbols.len(),
        ensures
            self.decode_many(self.encode(ks) + rest, ks.len()) == Some(
                Seq::new(ks.len(), |i: int| self.symbols[ks[i] as int]),
            ),
        decreases ks.len(),
    {
        let want = Seq::new(ks.len(), |i: int| self.symbols[ks[i] as int]);
        if ks.len() == 0 {
            assert(want =~= Seq::<u8>::empty());
        } else {
            let k = ks[0];
            let n = self.length_of(k);
            let head = number_bits(self.code_of(k), n);
            let tail = ks.skip(1);
            let after = self.encode(tail) + rest;
            lemma_number_bits_len(self.code_of(k), n);
            assert(self.encode(ks) + rest =~= head + after);
            self.lemma_decode_code(k, after);
            assert((head + after).skip(n as int) =~= after);
            self.lemma_decode_inverts_encode(tail, rest);
            let others = Seq::new(tail.len(), |i: int| self.symbols[tail[i] as int]);
            assert(want =~= seq![self.symbols[k as int]] + others);
        }
    }
}

/// A Huffman table ready for decoding.
#[derive(Debug)]
pub struct HuffmanTable {
    counts: [u8; 16],
    symbols: Vec<u8>,
    first: [u32; 16],
    before: [u16; 16],
}

impl View for HuffmanTable {
    type V = HuffmanSpec;

    closed spec fn view(&self) -> HuffmanSpec {
        HuffmanSpec { counts: self.counts@, symbols: self.symbols@ }
    }
}

impl HuffmanTable {
    #[verifier::type_invariant]
    spec fn inv(self) -> bool {
        &&& self@.wf()
        &&& forall|i: int|
            0 <= i < 16 ==> #[trigger] self.first@[i] == first_code(self.counts@, i as nat)
        &&& forall|i: int|
            0 <= i < 16 ==> #[trigger] self.before@[i] == symbols_before(self.counts@, i as nat)
    }

    /// Builds the table from the histogram and the symbols in code order.
    /// `None` if the number of symbols is not the sum of the histogram.
    pub fn new(counts: [u8; 16], symbols: Vec<u8>) -> (r: Option<HuffmanTable>)
        ensures
            r is Some <==> symbols@.len() == symbols_before(counts@, 16),
            r matches Some(t) ==> t@ == (HuffmanSpec { counts: counts@, symbols: symbols@ })
                && t@.wf(),
    {
        let mut first: [u32; 16] = [0u32; 16];
        let mut before: [u16; 16] = [0u16; 16];
        let mut code: u32 = 0;
        let mut seen: u16 = 0;
        let mut i: usize = 0;
        while i < 16
            invariant
                i <= 16,
                code == first_code(counts@, i as nat),
                seen == symbols_before(counts@, i as nat),
                forall|j: int| 0 <= j < i ==> #[trigger] first@[j] == first_code(counts@, j as nat),
                forall|j: int|
                    0 <= j < i ==> #[trigger] before@[j] == symbols_before(counts@, j as nat),
            decreases 16 - i,
        {
            proof {
                lemma_first_code_bound(counts@, i as nat);
                lemma_first_code_bound(counts@, (i + 1) as nat);
            }
            first[i] = code;
            before[i] = seen;
            code = (code + counts[i] as u32) * 2;
            seen = seen + counts[i] as u16;
            i += 1;
        }
        if symbols.len() != seen as usize {
            return None;
        }
        Some(HuffmanTable { counts, symbols, first, before })
    }

    /// The histogram: how many codes there are of each length from 1 to 16.
    pub fn counts(&self) -> (c: &[u8; 16])
        ensures
            c@ == self@.counts,
    {
        &self.counts
    }

    /// The symbols in code order.
    pub fn symbols(&self) -> (s: &Vec<u8>)
        ensures
            s@ == self@.symbols,
            self@.wf(),
    {
        proof {
            use_type_invariant(self);
        }
        &self.symbols
    }

    /// Decodes the symbol at the head of the bit stream and passes over its
    /// code.
    pub fn decode_symbol(&self, bits: &mut BitReader) -> (r: Result<u8, ErrorKind>)
        ensures
            final(bits).bytes() == old(bits).bytes(),
            final(bits).end() == old(bits).end(),
            match self@.decode(old(bits).rest()) {
                Ok((symbol, n)) => r == Ok::<u8, ErrorKind>(symbol)
                    && final(bits).rest() == old(bits).rest().skip(n as int),
                Err(e) => r == Err::<u8, ErrorKind>(e),
            },
    {
        proof {
            use_type_invariant(self);
        }
        let mut code: u32 = 0;
        let mut i: usize = 0;
        while i < 16
            invariant
                i <= 16,
                self.inv(),
                bits.bytes() == old(bits).bytes(),
                bits.end() == old(bits).end(),
                old(bits).rest().len() >= i,
                bits.rest() == old(bits).rest().skip(i as int),
                code == bits_value(old(bits).rest(), i as nat),
                self@.decode_at(old(bits).rest(), (i + 1) as nat) == self@.decode(old(bits).rest()),
            decreases 16 - i,
        {
            let ghost before = bits.rest();
            proof {
                crate::reader::lemma_bits_value_bound(old(bits).rest(), i as nat);
                lemma2_to64();
                lemma_pow2_strictly_increases(i as nat, 16);
                lemma_first_code_bound(self.counts@, i as nat);
                lemma_symbols_before_monotonic(self.counts@, (i + 1) as nat, 16);
            }
            match bits.next_bit() {
                None => {
                    return Err(ErrorKind::UnexpectedEndOfStream);
                },
                Some(b) => {
                    proof {
                        assert(before[0] == old(bits).rest()[i as int]);
                        assert(before.skip(1) =~= old(bits).rest().skip(i + 1));
                    }
                    code = code * 2 + if b {
                        1
                    } else {
                        0
                    };
                    let base = self.first[i];
                    if code >= base && code - base < self.counts[i] as u32 {
                        let k = self.before[i] as usize + (code - base) as usize;
                        return Ok(self.symbols[k]);
                    }
                    i += 1;
                },
            }
        }
        Err(ErrorKind::InvalidHuffmanCode)
    }
}

/// Which coefficients a Huffman table serves.
#[derive(Clone, Copy, Debug, PartialEq, Eq, Structural)]
pub enum TableClass {
    /// The table codes the magnitude categories of DC differences.
    Dc,
    /// The table codes the run/size symbols of AC coefficients.
    Ac,
}

/// One table of a Huffman segment, with the place it is meant for.
pub struct DefinitionSpec {
    pub class: TableClass,
    pub slot: nat,
    pub table: HuffmanSpec,
}

impl DefinitionSpec {
    /// The histogram of the table at the head of `s`.
    pub open spec fn counts_at_head(s: Seq<u8>) -> Seq<u8> {
        s.subrange(1, 17)
    }

    /// The number of bytes that the table at the head of `s` takes: the
    /// identifier byte, the sixteen counts, and one byte per symbol.
    pub open spec fn len_at_head(s: Seq<u8>) -> int {
        17 + symbols_before(Self::counts_at_head(s), 16) as int
    }

    /// The table that starts at the head of `s`. The high half of the
    /// identifier byte is the class, the low half the slot.
    pub open spec fn at_head(s: Seq<u8>) -> DefinitionSpec {
        DefinitionSpec {
            class: if s[0] / 16 == 0 {
                TableClass::Dc
            } else {
                TableClass::Ac
            },
            slot: (s[0] % 16) as nat,
            table: HuffmanSpec {
                counts: Self::counts_at_head(s),
                symbols: s.subrange(17, Self::len_at_head(s)),
            },
        }
    }
}

/// The tables that a Huffman segment's payload defines, in order. The
/// payload is a run of tables back to back. It is malformed if a table's
/// class is neither 0 nor 1, if its slot is above 3, or if the payload breaks
/// off before the table's last symbol.
pub open spec fn parse_dht_spec(payload: Seq<u8>) -> Result<Seq<DefinitionSpec>, ErrorKind>
    decreases payload.len(),
{
    if payload.len() == 0 {
        Ok(Seq::empty())
    } else if payload.len() < 17 || payload[0] / 16 > 1 || payload[0] % 16 > 3 || payload.len()
        < DefinitionSpec::len_at_head(payload) {
        Err(ErrorKind::MalformedSegment)
    } else {
        prepend(
            seq![DefinitionSpec::at_head(payload)],
            parse_dht_spec(payload.skip(DefinitionSpec::len_at_head(payload))),
        )
    }
}

/// A Huffman segment fails in one way only: by being malformed.
pub proof fn lemma_parse_dht_failure(payload: Seq<u8>)
    ensures
        parse_dht_spec(payload) matches Err(e) ==> e == ErrorKind::MalformedSegment,
    decreases payload.len(),
{
    if payload.len() >= 17 && payload.len() >= DefinitionSpec::len_at_head(payload) {
        lemma_parse_dht_failure(payload.skip(DefinitionSpec::len_at_head(payload)));
    }
}

/// One table of a Huffman segment, with the place it is meant for.
#[derive(Debug)]
pub struct TableDefinition {
    pub class: TableClass,
    pub slot: u8,
    pub table: HuffmanTable,
}

impl View for TableDefinition {
    type V = DefinitionSpec;

    open spec fn view(&self) -> DefinitionSpec {
        DefinitionSpec { class: self.class, slot: self.slot as nat, table: self.table@ }
    }
}

/// The mathematical content of a list of table definitions.
pub open spec fn definition_views(tables: Seq<TableDefinition>) -> Seq<DefinitionSpec> {
    Seq::new(tables.len(), |i: int| tables[i]@)
}

/// Parses the payload of a Huffman segment into the tables it defines.
pub fn parse_dht(payload: &[u8]) -> (r: Result<Vec<TableDefinition>, ErrorKind>)
    ensures
        match parse_dht_spec(payload@) {
            Ok(tables) => r matches Ok(v) && definition_views(v@) == tables && forall|i: int|
                0 <= i < v@.len() ==> (#[trigger] v@[i]).slot < 4 && v@[i].table@.wf(),
            Err(e) => r matches Err(f) && f == e,
        },
{
    let len = payload.len();
    let mut out: Vec<TableDefinition> = Vec::new();
    let mut off: usize = 0;
    proof {
        assert(payload@.skip(0) =~= payload@);
        assert(definition_views(out@) =~= Seq::<DefinitionSpec>::empty());
        match parse_dht_spec(payload@) {
            Ok(t) => assert(Seq::<DefinitionSpec>::empty() + t =~= t),
            Err(_) => {},
        }
    }
    while off < len
        invariant
            off <= len,
            len == payload@.len(),
            parse_dht_spec(payload@) == prepend(
                definition_views(out@),
                parse_dht_spec(payload@.skip(off as int)),
            ),
            forall|i: int| 0 <= i < out@.len() ==> (#[trigger] out@[i]).slot < 4 && out@[i].table@.wf(),
        decreases len - off,
    {
        let ghost s = payload@.skip(off as int);
        if len - off < 17 {
            return Err(ErrorKind::MalformedSegment);
        }
        let id = payload[off];
        if id / 16 > 1 || id % 16 > 3 {
            return Err(ErrorKind::MalformedSegment);
        }
        let mut counts: [u8; 16] = [0u8; 16];
        let mut total: usize = 0;
        let mut i: usize = 0;
        while i < 16
            invariant
                i <= 16,
                off + 17 <= len,
                len == payload@.len(),
                s == payload@.skip(off as int),
                forall|j: int| 0 <= j < i ==> #[trigger] counts@[j] == s[1 + j],
                total == symbols_before(counts@, i as nat),
                total <= 255 * i,
            decreases 16 - i,
        {
            let ghost previous = counts@;
            counts[i] = payload[off + 1 + i];
            proof {
                lemma_symbols_before_agrees(previous, counts@, i as nat);
            }
            total += counts[i] as usize;
            i += 1;
        }
        proof {
            assert(counts@ =~= DefinitionSpec::counts_at_head(s));
        }
        if len - off - 17 < total {
            return Err(ErrorKind::MalformedSegment);
        }
        let mut symbols: Vec<u8> = Vec::new();
        let mut k: usize = 0;
        while k < total
            invariant
                k <= total,
                off + 17 + total <= len,
                len == payload@.len(),
                s == payload@.skip(off as int),
                symbols@ == s.subrange(17, 17 + k),
            decreases total - k,
        {
            symbols.push(payload[off + 17 + k]);
            proof {
                assert(symbols@ =~= s.subrange(17, 17 + k + 1));
            }
            k += 1;
        }
        let class = if id / 16 == 0 {
            TableClass::Dc
        } else {
            TableClass::Ac
        };
        let table = HuffmanTable::new(counts, symbols).unwrap();
        let definition = TableDefinition { class, slot: id % 16, table };
        proof {
            assert(definition@ == DefinitionSpec::at_head(s));
            let done = definition_views(out@);
            assert(definition_views(out@.push(definition)) =~= done + seq![definition@]);
            assert(s.skip(17 + total) =~= payload@.skip(off + 17 + total));
            match parse_dht_spec(s.skip(17 + total)) {
                Ok(more) => assert(done + (seq![definition@] + more) =~= (done + seq![
                    definition@,
                ]) + more),
                Err(_) => {},
            }
        }
        out.push(definition);
        off += 17 + total;
    }
    proof {
        assert(definition_views(out@) + Seq::<DefinitionSpec>::empty() =~= definition_views(out@));
    }
    Ok(out)
}

/// The number of symbols before a length depends on the counts of the
/// shorter lengths alone.
pub proof fn lemma_symbols_before_agrees(a: Seq<u8>, b: Seq<u8>, i: nat)
    requires
        forall|j: int| 0 <= j < i ==> a[j] == b[j],
    ensures
        symbols_before(a, i) == symbols_before(b, i),
        first_code(a, i) == first_code(b, i),
    decreases i,
{
    if i > 0 {
        lemma_symbols_before_agrees(a, b, (i - 1) as nat);
    }
}

} // verus!
