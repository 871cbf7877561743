//! Reading a byte stream: whole bytes and big-endian fields for the segment
//! headers, single bits for the entropy-coded data.
use vstd::prelude::*;

verus! {

/// The 16-bit value whose more significant byte is `hi`.
pub open spec fn be16(hi: u8, lo: u8) -> u16 {
    (hi as int * 256 + lo as int) as u16
}

/// The 32-bit value whose bytes, most significant first, are `b0` to `b3`.
pub open spec fn be32(b0: u8, b1: u8, b2: u8, b3: u8) -> u32 {
    (((b0 as int * 256 + b1 as int) * 256 + b2 as int) * 256 + b3 as int) as u32
}

/// The byte at `pos`, if the stream reaches that far.
pub open spec fn u8_at(bytes: Seq<u8>, pos: int) -> Option<u8> {
    if 0 <= pos && pos + 1 <= bytes.len() {
        Some(bytes[pos])
    } else {
        None
    }
}

/// The big-endian 16-bit field at `pos`, if the stream holds both bytes.
pub open spec fn u16_at(bytes: Seq<u8>, pos: int) -> Option<u16> {
    if 0 <= pos && pos + 2 <= bytes.len() {
        Some(be16(bytes[pos], bytes[pos + 1]))
    } else {
        None
    }
}

/// The big-endian 32-bit field at `pos`, if the stream holds all four bytes.
pub open spec fn u32_at(bytes: Seq<u8>, pos: int) -> Option<u32> {
    if 0 <= pos && pos + 4 <= bytes.len() {
        Some(be32(bytes[pos], bytes[pos + 1], bytes[pos + 2], bytes[pos + 3]))
    } else {
        None
    }
}

/// A cursor over bytes held in memory. Reads are byte-aligned and take the
/// bytes as they are; a read that would pass the end yields `None` and
/// leaves the cursor where it was.
pub struct ByteReader<'a> {
    data: &'a [u8],
    pos: usize,
}

impl<'a> ByteReader<'a> {
    #[verifier::type_invariant]
    spec fn inv(self) -> bool {
        self.pos <= self.data@.len()
    }

    /// All bytes of the underlying stream.
    pub closed spec fn bytes(&self) -> Seq<u8> {
        self.data@
    }

    /// How many bytes have been passed.
    pub closed spec fn offset(&self) -> int {
        self.pos as int
    }

    /// A cursor at the first byte of `data`.
    pub fn new(data: &'a [u8]) -> (r: Self)
        ensures
            r.bytes() == data@,
            r.offset() == 0,
    {
        ByteReader { data, pos: 0 }
    }

    /// The number of bytes passed so far.
    pub fn position(&self) -> (p: usize)
        ensures
            p == self.offset(),
            p <= self.bytes().len(),
    {
        proof {
            use_type_invariant(self);
        }
        self.pos
    }

    /// The number of bytes not yet read.
    pub fn remaining(&self) -> (n: usize)
        ensures
            n == self.bytes().len() - self.offset(),
    {
        proof {
            use_type_invariant(self);
        }
        self.data.len() - self.pos
    }

    /// Reads one byte.
    pub fn read_u8(&mut self) -> (r: Option<u8>)
        ensures
            final(self).bytes() == old(self).bytes(),
            r == u8_at(old(self).bytes(), old(self).offset()),
            final(self).offset() == old(self).offset() + if r is Some {
                1int
            } else {
                0int
            },
    {
        proof {
            use_type_invariant(&*self);
        }
        if self.data.len() - self.pos < 1 {
            return None;
        }
        let b = self.data[self.pos];
        self.pos += 1;
        Some(b)
    }

    /// Reads a 16-bit field, most significant byte first.
    pub fn read_u16_big_endian(&mut self) -> (r: Option<u16>)
        ensures
            final(self).bytes() == old(self).bytes(),
            r == u16_at(old(self).bytes(), old(self).offset()),
            final(self).offset() == old(self).offset() + if r is Some {
                2int
            } else {
                0int
            },
    {
        proof {
            use_type_invariant(&*self);
        }
        if self.data.len() - self.pos < 2 {
            return None;
        }
        let hi = self.data[self.pos];
        let lo = self.data[self.pos + 1];
        self.pos += 2;
        Some(hi as u16 * 256 + lo as u16)
    }

    /// Reads a 32-bit field, most significant byte first.
    pub fn read_u32_big_endian(&mut self) -> (r: Option<u32>)
        ensures
            final(self).bytes() == old(self).bytes(),
            r == u32_at(old(self).bytes(), old(self).offset()),
            final(self).offset() == old(self).offset() + if r is Some {
                4int
            } else {
                0int
            },
    {
        proof {
            use_type_invariant(&*self);
        }
        if self.data.len() - self.pos < 4 {
            return None;
        }
        let b0 = self.data[self.pos];
        let b1 = self.data[self.pos + 1];
        let b2 = self.data[self.pos + 2];
        let b3 = self.data[self.pos + 3];
        self.pos += 4;
        Some(((b0 as u32 * 256 + b1 as u32) * 256 + b2 as u32) * 256 + b3 as u32)
    }

    /// The whole stream, whatever the cursor's position.
    pub fn data(&self) -> (d: &'a [u8])
        ensures
            d@ == self.bytes(),
    {
        self.data
    }

    /// Reads `n` bytes as they are.
    pub fn take(&mut self, n: usize) -> (r: Option<&'a [u8]>)
        ensures
            final(self).bytes() == old(self).bytes(),
            r is Some <==> old(self).offset() + n <= old(self).bytes().len(),
            r matches Some(taken) ==> taken@ == old(self).bytes().subrange(
                old(self).offset(),
                old(self).offset() + n,
            ),
            final(self).offset() == old(self).offset() + if r is Some {
                n as int
            } else {
                0int
            },
    {
        proof {
            use_type_invariant(&*self);
        }
        if self.data.len() - self.pos < n {
            return None;
        }
        let taken = vstd::slice::slice_subrange(self.data, self.pos, self.pos + n);
        self.pos += n;
        Some(taken)
    }

    /// Moves the cursor to byte `pos`. Answers whether the stream reaches
    /// that far; if not, the cursor stays.
    pub fn seek(&mut self, pos: usize) -> (ok: bool)
        ensures
            final(self).bytes() == old(self).bytes(),
            ok == (pos <= old(self).bytes().len()),
            final(self).offset() == if ok {
                pos as int
            } else {
                old(self).offset()
            },
    {
        if pos > self.data.len() {
            return false;
        }
        self.pos = pos;
        true
    }
}

/// Bit `k` of `b`, counting from the most significant one.
pub open spec fn bit_of(b: u8, k: int) -> bool {
    (b >> ((7 - k) as u8)) & 1 == 1
}

/// The bits of `data`, each byte most significant bit first.
pub open spec fn bits_of(data: Seq<u8>) -> Seq<bool> {
    Seq::new(8 * data.len(), |i: int| bit_of(data[i / 8], i % 8))
}

/// The data bytes of the entropy-coded run that starts at `pos`, with the
/// stuffing removed: a 0xFF followed by 0x00 stands for the data byte 0xFF.
/// The run ends before a 0xFF that is followed by anything else (a marker),
/// before a 0xFF that is the last byte, or at the end of the stream.
pub open spec fn entropy_bytes(bytes: Seq<u8>, pos: int) -> Seq<u8>
    decreases bytes.len() - pos,
{
    if pos < 0 || pos >= bytes.len() {
        Seq::empty()
    } else if bytes[pos] != 0xFF {
        seq![bytes[pos]] + entropy_bytes(bytes, pos + 1)
    } else if pos + 1 < bytes.len() && bytes[pos + 1] == 0 {
        seq![0xFFu8] + entropy_bytes(bytes, pos + 2)
    } else {
        Seq::empty()
    }
}

/// Where the entropy-coded run that starts at `pos` ends: the offset of the
/// marker that follows it, or of the stream's end.
pub open spec fn entropy_end(bytes: Seq<u8>, pos: int) -> int
    decreases bytes.len() - pos,
{
    if pos < 0 || pos >= bytes.len() {
        pos
    } else if bytes[pos] != 0xFF {
        entropy_end(bytes, pos + 1)
    } else if pos + 1 < bytes.len() && bytes[pos + 1] == 0 {
        entropy_end(bytes, pos + 2)
    } else {
        pos
    }
}

/// The entropy-coded run that starts at `pos`, as bits.
pub open spec fn entropy_bits(bytes: Seq<u8>, pos: int) -> Seq<bool> {
    bits_of(entropy_bytes(bytes, pos))
}

/// The number that the first `n` of `bits` spell, most significant first.
pub open spec fn bits_value(bits: Seq<bool>, n: nat) -> nat
    decreases n,
{
    if n == 0 {
        0
    } else {
        2 * bits_value(bits, (n - 1) as nat) + if bits[n - 1] {
            1nat
        } else {
            0nat
        }
    }
}

/// Data bytes as they are written into an entropy-coded run: every 0xFF is
/// followed by a stuffed 0x00.
pub open spec fn stuffed(data: Seq<u8>) -> Seq<u8>
    decreases data.len(),
{
    if data.len() == 0 {
        Seq::empty()
    } else if data[0] == 0xFF {
        seq![0xFFu8, 0x00u8] + stuffed(data.skip(1))
    } else {
        seq![data[0]] + stuffed(data.skip(1))
    }
}

/// Whether `tail` ends an entropy-coded run: it is empty, or a lone 0xFF,
/// or starts with a marker.
pub open spec fn ends_run(tail: Seq<u8>) -> bool {
    tail.len() == 0 || (tail[0] == 0xFF && (tail.len() == 1 || tail[1] != 0))
}

/// The entropy-coded run that starts at `pos` depends only on the bytes
/// from `pos` on.
pub proof fn lemma_entropy_of_suffix(bytes: Seq<u8>, pos: int)
    requires
        0 <= pos <= bytes.len(),
    ensures
        entropy_bytes(bytes, pos) == entropy_bytes(bytes.skip(pos), 0),
        entropy_end(bytes, pos) == pos + entropy_end(bytes.skip(pos), 0),
    decreases bytes.len() - pos,
{
    let rest = bytes.skip(pos);
    if pos < bytes.len() {
        assert(rest[0] == bytes[pos]);
        if bytes[pos] != 0xFF {
            lemma_entropy_of_suffix(bytes, pos + 1);
            lemma_entropy_of_suffix(rest, 1);
            assert(rest.skip(1) =~= bytes.skip(pos + 1));
        } else if pos + 1 < bytes.len() && bytes[pos + 1] == 0 {
            assert(rest[1] == bytes[pos + 1]);
            lemma_entropy_of_suffix(bytes, pos + 2);
            lemma_entropy_of_suffix(rest, 2);
            assert(rest.skip(2) =~= bytes.skip(pos + 2));
        } else {
            if pos + 1 < bytes.len() {
                assert(rest[1] == bytes[pos + 1]);
            }
        }
    }
}

/// Removing the stuffing inverts adding it: stuffed data, followed by what
/// ends a run, reads back as the data, and the run ends where the stuffed
/// data ends.
pub proof fn lemma_unstuffing_inverts_stuffing(data: Seq<u8>, tail: Seq<u8>)
    requires
        ends_run(tail),
    ensures
        entropy_bytes(stuffed(data) + tail, 0) == data,
        entropy_end(stuffed(data) + tail, 0) == stuffed(data).len(),
    decreases data.len(),
{
    let stream = stuffed(data) + tail;
    if data.len() == 0 {
        assert(stream =~= tail);
        assert(entropy_bytes(stream, 0) =~= data);
    } else {
        let rest = stuffed(data.skip(1)) + tail;
        lemma_unstuffing_inverts_stuffing(data.skip(1), tail);
        let step: int = if data[0] == 0xFF {
            2
        } else {
            1
        };
        assert(stream.skip(step) =~= rest);
        lemma_entropy_of_suffix(stream, step);
        assert(stream[0] == data[0]);
        if data[0] == 0xFF {
            assert(stream[1] == 0);
        }
        assert(entropy_bytes(stream, 0) == seq![data[0]] + entropy_bytes(stream, step));
        assert(seq![data[0]] + data.skip(1) =~= data);
    }
}

/// An entropy-coded run ends inside the stream or at its end.
pub proof fn lemma_entropy_end_bounds(bytes: Seq<u8>, pos: int)
    requires
        0 <= pos <= bytes.len(),
    ensures
        pos <= entropy_end(bytes, pos) <= bytes.len(),
    decreases bytes.len() - pos,
{
    if pos >= bytes.len() {
    } else if bytes[pos] != 0xFF {
        lemma_entropy_end_bounds(bytes, pos + 1);
    } else if pos + 1 < bytes.len() && bytes[pos + 1] == 0 {
        lemma_entropy_end_bounds(bytes, pos + 2);
    } else {
    }
}

/// Dropping the eight bits of the first byte leaves the bits of the rest.
pub proof fn lemma_bits_of_tail(b: u8, rest: Seq<u8>)
    ensures
        bits_of(seq![b] + rest).skip(8) == bits_of(rest),
        forall|k: int| 0 <= k < 8 ==> #[trigger] bits_of(seq![b] + rest)[k] == bit_of(b, k),
        bits_of(seq![b] + rest).len() == 8 + bits_of(rest).len(),
{
    let whole = seq![b] + rest;
    assert forall|i: int| 0 <= i < bits_of(rest).len() implies #[trigger] bits_of(whole).skip(8)[i]
        == bits_of(rest)[i] by {
        assert((i + 8) / 8 == i / 8 + 1);
        assert((i + 8) % 8 == i % 8);
        assert(whole[(i + 8) / 8] == rest[i / 8]);
    }
    assert(bits_of(whole).skip(8) =~= bits_of(rest));
    assert forall|k: int| 0 <= k < 8 implies #[trigger] bits_of(whole)[k] == bit_of(b, k) by {
        assert(k / 8 == 0);
        assert(k % 8 == k);
        assert(whole[0] == b);
    }
}

/// A number spelled by `n` bits is below two to the `n`.
pub proof fn lemma_bits_value_bound(bits: Seq<bool>, n: nat)
    ensures
        bits_value(bits, n) < vstd::arithmetic::power2::pow2(n),
    decreases n,
{
    vstd::arithmetic::power2::lemma2_to64();
    if n > 0 {
        lemma_bits_value_bound(bits, (n - 1) as nat);
        vstd::arithmetic::power2::lemma_pow2_unfold(n);
    }
}

/// A cursor over the bits of an entropy-coded run. It removes byte stuffing
/// as it goes and stops at the marker that ends the run.
pub struct BitReader<'a> {
    data: &'a [u8],
    pos: usize,
    bit: u8,
}

impl<'a> BitReader<'a> {
    #[verifier::type_invariant]
    spec fn inv(self) -> bool {
        &&& self.pos <= self.data@.len()
        &&& self.bit < 8
        &&& self.bit > 0 ==> self.at_data_byte()
    }

    spec fn at_data_byte(self) -> bool {
        &&& self.pos < self.data@.len()
        &&& (self.data@[self.pos as int] != 0xFF || (self.pos + 1 < self.data@.len()
            && self.data@[self.pos + 1] == 0))
    }

    /// All bytes of the underlying stream.
    pub closed spec fn bytes(&self) -> Seq<u8> {
        self.data@
    }

    /// The bits of the run that have not been read yet.
    pub closed spec fn rest(&self) -> Seq<bool> {
        entropy_bits(self.data@, self.pos as int).skip(self.bit as int)
    }

    /// The byte offset at which the run ends.
    pub closed spec fn end(&self) -> int {
        entropy_end(self.data@, self.pos as int)
    }

    /// A cursor at the first bit of the run that starts at byte `pos`.
    pub fn new(data: &'a [u8], pos: usize) -> (r: Self)
        requires
            pos <= data@.len(),
        ensures
            r.bytes() == data@,
            r.rest() == entropy_bits(data@, pos as int),
            r.end() == entropy_end(data@, pos as int),
    {
        BitReader { data, pos, bit: 0 }
    }

    /// Reads one bit, or yields `None` when the run is exhausted.
    pub fn next_bit(&mut self) -> (r: Option<bool>)
        ensures
            final(self).bytes() == old(self).bytes(),
            final(self).end() == old(self).end(),
            r == if old(self).rest().len() > 0 {
                Some(old(self).rest()[0])
            } else {
                None
            },
            final(self).rest() == if old(self).rest().len() > 0 {
                old(self).rest().skip(1)
            } else {
                old(self).rest()
            },
    {
        proof {
            use_type_invariant(&*self);
        }
        let len = self.data.len();
        if self.pos >= len {
            return None;
        }
        let byte = self.data[self.pos];
        let step: usize = if byte != 0xFF {
            1
        } else if len - self.pos >= 2 && self.data[self.pos + 1] == 0 {
            2
        } else {
            return None;
        };
        let ghost tail = entropy_bytes(self.data@, self.pos + step);
        proof {
            lemma_bits_of_tail(byte, tail);
            assert(entropy_bytes(self.data@, self.pos as int) == seq![byte] + tail);
        }
        let b = (byte >> (7 - self.bit)) & 1 == 1;
        if self.bit == 7 {
            self.bit = 0;
            self.pos += step;
            proof {
                assert(self.rest() =~= old(self).rest().skip(1));
            }
        } else {
            self.bit += 1;
            proof {
                assert(self.rest() =~= old(self).rest().skip(1));
            }
        }
        Some(b)
    }

    /// Reads `n` bits as a number, most significant bit first, or yields
    /// `None` when the run holds fewer than `n` more bits.
    pub fn read_bits(&mut self, n: u8) -> (r: Option<u16>)
        requires
            n <= 16,
        ensures
            final(self).bytes() == old(self).bytes(),
            final(self).end() == old(self).end(),
            r == if old(self).rest().len() >= n {
                Some(bits_value(old(self).rest(), n as nat) as u16)
            } else {
                None
            },
            r is Some ==> final(self).rest() == old(self).rest().skip(n as int),
            r is Some ==> bits_value(old(self).rest(), n as nat) < vstd::arithmetic::power2::pow2(
                n as nat,
            ),
    {
        let mut value: u32 = 0;
        let mut i: u8 = 0;
        proof {
            vstd::arithmetic::power2::lemma2_to64();
        }
        while i < n
            invariant
                i <= n <= 16,
                self.bytes() == old(self).bytes(),
                self.end() == old(self).end(),
                old(self).rest().len() >= i,
                self.rest() == old(self).rest().skip(i as int),
                value == bits_value(old(self).rest(), i as nat),
                value < vstd::arithmetic::power2::pow2(i as nat),
            decreases n - i,
        {
            let ghost before = self.rest();
            match self.next_bit() {
                None => {
                    return None;
                },
                Some(b) => {
                    proof {
                        assert(before[0] == old(self).rest()[i as int]);
                        assert(before.skip(1) =~= old(self).rest().skip(i + 1));
                        vstd::arithmetic::power2::lemma_pow2_unfold((i + 1) as nat);
                        vstd::arithmetic::power2::lemma_pow2_strictly_increases(i as nat, 16);
                        vstd::arithmetic::power2::lemma2_to64();
                    }
                    value = value * 2 + if b {
                        1
                    } else {
                        0
                    };
                    i += 1;
                },
            }
        }
        proof {
            vstd::arithmetic::power2::lemma2_to64();
            if n < 16 {
                vstd::arithmetic::power2::lemma_pow2_strictly_increases(n as nat, 16);
            }
        }
        Some(value as u16)
    }

    /// Leaves the run: the offset of the marker that ends it, or of the
    /// stream's end. Bits not yet read are dropped.
    pub fn finish(self) -> (p: usize)
        ensures
            p == self.end(),
            p <= self.bytes().len(),
    {
        proof {
            use_type_invariant(&self);
        }
        let len = self.data.len();
        let mut pos = self.pos;
        loop
            invariant
                len == self.data@.len(),
                pos <= len,
                entropy_end(self.data@, pos as int) == self.end(),
            ensures
                pos <= len,
                pos == self.end(),
            decreases len - pos,
        {
            if pos >= len {
                break ;
            }
            if self.data[pos] != 0xFF {
                pos += 1;
            } else if len - pos >= 2 && self.data[pos + 1] == 0 {
                pos += 2;
            } else {
                break ;
            }
        }
        pos
    }
}

} // verus!
