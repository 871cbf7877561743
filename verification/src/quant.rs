//! Quantization tables and the segment that defines them.
use crate::error::{prepend, ErrorKind};
use crate::reader::be16;
use vstd::prelude::*;

verus! {

/// A quantization table as the segment gives it: the slot it is meant for,
/// whether its entries are stored in two bytes each, and its 64 entries in
/// zig-zag order.
pub struct QuantSpec {
    pub slot: nat,
    pub wide: bool,
    pub values: Seq<u16>,
}

impl QuantSpec {
    /// The slot is one of the four, there are 64 entries, and the entries
    /// of a table stored in single bytes fit in a byte.
    pub open spec fn wf(self) -> bool {
        &&& self.slot < 4
        &&& self.values.len() == 64
        &&& !self.wide ==> forall|k: int| 0 <= k < 64 ==> #[trigger] self.values[k] < 256
    }

    /// The number of bytes the table takes in a segment, its identifier
    /// byte included.
    pub open spec fn encoded_len(wide: bool) -> int {
        if wide {
            129
        } else {
            65
        }
    }

    /// The table that starts at the head of `s`. Bit 4 of the identifier
    /// byte says that entries take two bytes, the low two bits name the slot.
    pub open spec fn at_head(s: Seq<u8>) -> QuantSpec {
        let wide = (s[0] / 16) % 2 == 1;
        QuantSpec {
            slot: (s[0] % 4) as nat,
            wide,
            values: Seq::new(
                64,
                |k: int|
                    if wide {
                        be16(s[1 + 2 * k], s[2 + 2 * k])
                    } else {
                        s[1 + k] as u16
                    },
            ),
        }
    }

    /// The bytes that define this table in a segment.
    pub open spec fn encoding(self) -> Seq<u8> {
        let id = (if self.wide {
            16 + self.slot
        } else {
            self.slot
        }) as u8;
        if self.wide {
            seq![id] + Seq::new(
                128,
                |i: int|
                    if i % 2 == 0 {
                        (self.values[i / 2] / 256) as u8
                    } else {
                        (self.values[i / 2] % 256) as u8
                    },
            )
        } else {
            seq![id] + Seq::new(64, |i: int| self.values[i] as u8)
        }
    }
}

/// The tables that a quantization segment's payload defines, in order. The
/// payload is a run of tables back to back; one that breaks off before its
/// 64th entry makes the segment malformed.
pub open spec fn parse_dqt_spec(payload: Seq<u8>) -> Result<Seq<QuantSpec>, ErrorKind>
    decreases payload.len(),
{
    if payload.len() == 0 {
        Ok(Seq::empty())
    } else {
        let table = QuantSpec::at_head(payload);
        let size = QuantSpec::encoded_len(table.wide);
        if payload.len() < size {
            Err(ErrorKind::MalformedSegment)
        } else {
            prepend(seq![table], parse_dqt_spec(payload.skip(size)))
        }
    }
}

/// The payload that defines `tables`, one after the other.
pub open spec fn dqt_payload(tables: Seq<QuantSpec>) -> Seq<u8>
    decreases tables.len(),
{
    if tables.len() == 0 {
        Seq::empty()
    } else {
        tables[0].encoding() + dqt_payload(tables.skip(1))
    }
}

/// A table read back from its own bytes is the same table.
pub proof fn lemma_table_round_trip(table: QuantSpec, rest: Seq<u8>)
    requires
        table.wf(),
    ensures
        table.encoding().len() == QuantSpec::encoded_len(table.wide),
        QuantSpec::at_head(table.encoding() + rest) == table,
        (table.encoding() + rest).skip(QuantSpec::encoded_len(table.wide)) == rest,
{
    let s = table.encoding() + rest;
    let back = QuantSpec::at_head(s);
    assert(back.wide == table.wide);
    assert(back.slot == table.slot);
    assert forall|k: int| 0 <= k < 64 implies back.values[k] == table.values[k] by {
        let v = table.values[k];
        if table.wide {
            assert((2 * k) % 2 == 0);
            assert((2 * k + 1) % 2 == 1);
            assert((2 * k) / 2 == k);
            assert((2 * k + 1) / 2 == k);
            assert(s[1 + 2 * k] == (v / 256) as u8);
            assert(s[2 + 2 * k] == (v % 256) as u8);
        } else {
            assert(s[1 + k] == v as u8);
        }
    }
    assert(back.values =~= table.values);
    assert(s.skip(QuantSpec::encoded_len(table.wide)) =~= rest);
}

/// Parsing inverts writing: the payload written for any list of well-formed
/// tables parses to exactly those tables, as many as were written, each with
/// its slot, entry width and 64 entries unchanged.
pub proof fn lemma_dqt_round_trip(tables: Seq<QuantSpec>)
    requires
        forall|i: int| 0 <= i < tables.len() ==> (#[trigger] tables[i]).wf(),
    ensures
        parse_dqt_spec(dqt_payload(tables)) == Ok::<Seq<QuantSpec>, ErrorKind>(tables),
    decreases tables.len(),
{
    if tables.len() > 0 {
        let rest = dqt_payload(tables.skip(1));
        let payload = dqt_payload(tables);
        lemma_table_round_trip(tables[0], rest);
        lemma_dqt_round_trip(tables.skip(1));
        assert(payload == tables[0].encoding() + rest);
        assert(payload.len() >= QuantSpec::encoded_len(tables[0].wide));
        assert(seq![tables[0]] + tables.skip(1) =~= tables);
    } else {
        assert(tables =~= Seq::<QuantSpec>::empty());
    }
}

/// A payload that is not empty and yet too short for one table of 64 entries
/// is malformed: no shorter table is ever made of it.
pub proof fn lemma_short_dqt_is_malformed(payload: Seq<u8>)
    requires
        0 < payload.len() < 65,
    ensures
        parse_dqt_spec(payload) == Err::<Seq<QuantSpec>, ErrorKind>(ErrorKind::MalformedSegment),
{
}

/// A payload whose last table breaks off before its 64th entry is malformed,
/// whatever complete tables come before it.
pub proof fn lemma_broken_dqt_is_malformed(tables: Seq<QuantSpec>, tail: Seq<u8>)
    requires
        forall|i: int| 0 <= i < tables.len() ==> (#[trigger] tables[i]).wf(),
        0 < tail.len() < 65,
    ensures
        parse_dqt_spec(dqt_payload(tables) + tail) == Err::<Seq<QuantSpec>, ErrorKind>(
            ErrorKind::MalformedSegment,
        ),
    decreases tables.len(),
{
    if tables.len() == 0 {
        assert(dqt_payload(tables) + tail =~= tail);
        lemma_short_dqt_is_malformed(tail);
    } else {
        let rest = dqt_payload(tables.skip(1)) + tail;
        lemma_table_round_trip(tables[0], rest);
        lemma_broken_dqt_is_malformed(tables.skip(1), tail);
        assert(dqt_payload(tables) + tail =~= tables[0].encoding() + rest);
    }
}

/// A quantization segment fails in one way only: by being malformed.
pub proof fn lemma_parse_dqt_failure(payload: Seq<u8>)
    ensures
        parse_dqt_spec(payload) matches Err(e) ==> e == ErrorKind::MalformedSegment,
    decreases payload.len(),
{
    if payload.len() > 0 {
        let size = QuantSpec::encoded_len(QuantSpec::at_head(payload).wide);
        if payload.len() >= size {
            lemma_parse_dqt_failure(payload.skip(size));
        }
    }
}

/// Every table that parsing yields has its 64 entries and a valid slot.
pub proof fn lemma_parsed_tables_wf(payload: Seq<u8>)
    ensures
        parse_dqt_spec(payload) matches Ok(tables) ==> forall|i: int|
            0 <= i < tables.len() ==> (#[trigger] tables[i]).wf(),
    decreases payload.len(),
{
    if payload.len() > 0 {
        let table = QuantSpec::at_head(payload);
        let size = QuantSpec::encoded_len(table.wide);
        if payload.len() >= size {
            lemma_parsed_tables_wf(payload.skip(size));
            assert(table.wf());
        }
    }
}

/// A quantization table: 64 entries in zig-zag order, for one of four slots.
#[derive(Clone, Copy, Debug)]
pub struct QuantTable {
    slot: u8,
    wide: bool,
    values: [u16; 64],
}

impl View for QuantTable {
    type V = QuantSpec;

    closed spec fn view(&self) -> QuantSpec {
        QuantSpec { slot: self.slot as nat, wide: self.wide, values: self.values@ }
    }
}

/// The mathematical content of a list of tables.
pub open spec fn quant_views(tables: Seq<QuantTable>) -> Seq<QuantSpec> {
    Seq::new(tables.len(), |i: int| tables[i]@)
}

impl QuantTable {
    #[verifier::type_invariant]
    spec fn inv(self) -> bool {
        self@.wf()
    }

    /// A table for `slot` with the given entries, stored in two bytes each
    /// if `wide`. `None` if the slot is not one of the four, or if an entry
    /// of a table that is not wide exceeds a byte.
    pub fn new(slot: u8, wide: bool, values: [u16; 64]) -> (r: Option<QuantTable>)
        ensures
            r is Some <==> (QuantSpec { slot: slot as nat, wide, values: values@ }).wf(),
            r matches Some(t) ==> t@ == (QuantSpec { slot: slot as nat, wide, values: values@ }),
    {
        if slot >= 4 {
            return None;
        }
        if !wide {
            let mut k: usize = 0;
            while k < 64
                invariant
                    k <= 64,
                    !wide,
                    forall|j: int| 0 <= j < k ==> #[trigger] values@[j] < 256,
                decreases 64 - k,
            {
                if values[k] >= 256 {
                    assert(!(values@[k as int] < 256));
                    return None;
                }
                k += 1;
            }
        }
        Some(QuantTable { slot, wide, values })
    }

    /// The slot that the table is meant for.
    pub fn slot(&self) -> (s: u8)
        ensures
            s == self@.slot,
            s < 4,
    {
        proof {
            use_type_invariant(self);
        }
        self.slot
    }

    /// Whether the entries are stored in two bytes each.
    pub fn is_wide(&self) -> (w: bool)
        ensures
            w == self@.wide,
    {
        self.wide
    }

    /// The 64 entries in zig-zag order.
    pub fn values(&self) -> (v: &[u16; 64])
        ensures
            v@ == self@.values,
            self@.wf(),
    {
        proof {
            use_type_invariant(self);
        }
        &self.values
    }

    /// Appends the bytes that define this table in a segment.
    pub fn write(&self, out: &mut Vec<u8>)
        ensures
            final(out)@ == old(out)@ + self@.encoding(),
    {
        proof {
            use_type_invariant(self);
        }
        let id: u8 = if self.wide {
            16 + self.slot
        } else {
            self.slot
        };
        out.push(id);
        let ghost body = self@.encoding().skip(1);
        let mut k: usize = 0;
        while k < 64
            invariant
                k <= 64,
                self@.wf(),
                body == self@.encoding().skip(1),
                self@.encoding()[0] == id,
                out@ == old(out)@ + seq![id] + body.take(
                    if self.wide {
                        2 * k
                    } else {
                        k as int
                    },
                ),
            decreases 64 - k,
        {
            let v = self.values[k];
            let ghost so_far = out@;
            if self.wide {
                out.push((v / 256) as u8);
                out.push((v % 256) as u8);
                proof {
                    assert((2 * k) % 2 == 0 && (2 * k) / 2 == k);
                    assert((2 * k + 1) % 2 == 1 && (2 * k + 1) / 2 == k);
                    assert(body.take(2 * k + 2) =~= body.take(2 * k).push(body[2 * k]).push(
                        body[2 * k + 1],
                    ));
                }
            } else {
                out.push(v as u8);
                proof {
                    assert(body.take(k + 1) =~= body.take(k as int).push(body[k as int]));
                }
            }
            k += 1;
        }
        proof {
            assert(body.take(body.len() as int) =~= body);
            assert(seq![id] + body =~= self@.encoding());
            assert(out@ =~= old(out)@ + self@.encoding());
        }
    }
}

/// The length of the payload that defines `tables`.
pub open spec fn dqt_payload_len(tables: Seq<QuantSpec>) -> int
    decreases tables.len(),
{
    if tables.len() == 0 {
        0
    } else {
        dqt_payload_len(tables.drop_last()) + QuantSpec::encoded_len(tables.last().wide)
    }
}

/// The whole segment that defines `tables`: the marker, the length of all
/// that follows it, and the payload.
pub open spec fn dqt_segment(tables: Seq<QuantSpec>) -> Seq<u8> {
    let length = dqt_payload(tables).len() + 2;
    seq![0xFFu8, 0xDBu8, (length / 256) as u8, (length % 256) as u8] + dqt_payload(tables)
}

/// The payload of a list of tables is the payload of all but the last,
/// followed by the last table's bytes.
pub proof fn lemma_dqt_payload_grows(tables: Seq<QuantSpec>)
    requires
        tables.len() > 0,
        forall|i: int| 0 <= i < tables.len() ==> (#[trigger] tables[i]).wf(),
    ensures
        dqt_payload(tables) == dqt_payload(tables.drop_last()) + tables.last().encoding(),
        dqt_payload(tables).len() == dqt_payload_len(tables),
    decreases tables.len(),
{
    let last = tables.last();
    let front = tables.drop_last();
    lemma_table_round_trip(last, Seq::empty());
    assert(last.encoding().len() == QuantSpec::encoded_len(last.wide));
    assert(dqt_payload_len(tables) == dqt_payload_len(front) + QuantSpec::encoded_len(last.wide));
    if tables.len() == 1 {
        assert(tables.skip(1) =~= Seq::<QuantSpec>::empty());
        assert(front =~= Seq::<QuantSpec>::empty());
        assert(dqt_payload(tables.skip(1)) =~= Seq::<u8>::empty());
        assert(dqt_payload(front) =~= Seq::<u8>::empty());
        assert(dqt_payload_len(front) == 0);
        assert(dqt_payload(tables) =~= tables[0].encoding());
        assert(dqt_payload(front) + last.encoding() =~= tables[0].encoding());
    } else {
        let rest = tables.skip(1);
        lemma_dqt_payload_grows(rest);
        lemma_dqt_payload_grows(front);
        assert(rest.drop_last() =~= front.skip(1));
        assert(rest.last() == last);
        assert(front[0] == tables[0]);
        assert(dqt_payload(tables) == tables[0].encoding() + dqt_payload(rest));
        assert(dqt_payload(front) == tables[0].encoding() + dqt_payload(front.skip(1)));
        assert(dqt_payload(tables) =~= dqt_payload(front) + last.encoding());
        assert(dqt_payload(front).len() == dqt_payload_len(front));
    }
}

/// Writes the segment that defines `tables`, or nothing if they are too
/// many for the length field of one segment.
pub fn write_dqt(tables: &Vec<QuantTable>) -> (r: Option<Vec<u8>>)
    ensures
        r is Some <==> dqt_payload_len(quant_views(tables@)) + 2 <= 0xFFFF,
        r matches Some(segment) ==> segment@ == dqt_segment(quant_views(tables@)),
{
    let ghost views = quant_views(tables@);
    let mut payload: Vec<u8> = Vec::new();
    let mut i: usize = 0;
    proof {
        lemma_payload_len_monotonic(views, 0);
        assert(views.take(0) =~= Seq::<QuantSpec>::empty());
    }
    while i < tables.len()
        invariant
            i <= tables@.len(),
            views == quant_views(tables@),
            forall|j: int| 0 <= j < i ==> (#[trigger] views[j]).wf(),
            payload@ == dqt_payload(views.take(i as int)),
            payload@.len() == dqt_payload_len(views.take(i as int)),
            payload@.len() + 2 <= 0xFFFF,
            dqt_payload_len(views.take(i as int)) <= dqt_payload_len(views),
        decreases tables@.len() - i,
    {
        let table = &tables[i];
        let _ = table.values();
        let size: usize = if table.is_wide() {
            129
        } else {
            65
        };
        proof {
            lemma_payload_len_monotonic(views, i + 1);
            assert(views.take(i + 1).drop_last() =~= views.take(i as int));
            assert(views.take(i + 1).last() == views[i as int]);
            lemma_dqt_payload_grows(views.take(i + 1));
        }
        if payload.len() + size + 2 > 0xFFFF {
            return None;
        }
        table.write(&mut payload);
        i += 1;
    }
    proof {
        assert(views.take(views.len() as int) =~= views);
    }
    let length = payload.len() + 2;
    let mut segment: Vec<u8> = Vec::new();
    segment.push(0xFF);
    segment.push(0xDB);
    segment.push((length / 256) as u8);
    segment.push((length % 256) as u8);
    segment.append(&mut payload);
    proof {
        assert(segment@ =~= dqt_segment(views));
    }
    Some(segment)
}

/// The payload of the first tables of a list is no longer than the payload
/// of them all.
pub proof fn lemma_payload_len_monotonic(tables: Seq<QuantSpec>, n: int)
    requires
        0 <= n <= tables.len(),
    ensures
        0 <= dqt_payload_len(tables.take(n)) <= dqt_payload_len(tables),
    decreases tables.len() - n,
{
    if n == tables.len() {
        assert(tables.take(n) =~= tables);
        lemma_payload_len_nonnegative(tables);
    } else {
        lemma_payload_len_monotonic(tables, n + 1);
        assert(tables.take(n + 1).drop_last() =~= tables.take(n));
        lemma_payload_len_nonnegative(tables.take(n));
    }
}

/// A payload has no negative length.
pub proof fn lemma_payload_len_nonnegative(tables: Seq<QuantSpec>)
    ensures
        0 <= dqt_payload_len(tables),
    decreases tables.len(),
{
    if tables.len() > 0 {
        lemma_payload_len_nonnegative(tables.drop_last());
    }
}

/// Parses the payload of a quantization segment into the tables it defines.
pub fn parse_dqt(payload: &[u8]) -> (r: Result<Vec<QuantTable>, ErrorKind>)
    ensures
        match parse_dqt_spec(payload@) {
            Ok(tables) => r matches Ok(v) && quant_views(v@) == tables,
            Err(e) => r matches Err(f) && f == e,
        },
{
    let len = payload.len();
    let mut out: Vec<QuantTable> = Vec::new();
    let mut off: usize = 0;
    proof {
        assert(payload@.skip(0) =~= payload@);
        assert(quant_views(out@) =~= Seq::<QuantSpec>::empty());
        match parse_dqt_spec(payload@) {
            Ok(t) => assert(Seq::<QuantSpec>::empty() + t =~= t),
            Err(_) => {},
        }
    }
    while off < len
        invariant
            off <= len,
            len == payload@.len(),
            parse_dqt_spec(payload@) == prepend(
                quant_views(out@),
                parse_dqt_spec(payload@.skip(off as int)),
            ),
        decreases len - off,
    {
        let ghost s = payload@.skip(off as int);
        let id = payload[off];
        let wide = (id / 16) % 2 == 1;
        let slot = id % 4;
        let size: usize = if wide {
            129
        } else {
            65
        };
        if len - off < size {
            return Err(ErrorKind::MalformedSegment);
        }
        let mut values: [u16; 64] = [0u16; 64];
        let mut k: usize = 0;
        while k < 64
            invariant
                k <= 64,
                off + size <= len,
                len == payload@.len(),
                size == QuantSpec::encoded_len(wide),
                s == payload@.skip(off as int),
                wide == QuantSpec::at_head(s).wide,
                forall|j: int| 0 <= j < k ==> #[trigger] values@[j] == QuantSpec::at_head(s).values[j],
            decreases 64 - k,
        {
            let v: u16 = if wide {
                payload[off + 1 + 2 * k] as u16 * 256 + payload[off + 2 + 2 * k] as u16
            } else {
                payload[off + 1 + k] as u16
            };
            values[k] = v;
            k += 1;
        }
        let table = QuantTable { slot, wide, values };
        proof {
            assert(table@.values =~= QuantSpec::at_head(s).values);
            assert(table@ == QuantSpec::at_head(s));
            let done = quant_views(out@);
            assert(quant_views(out@.push(table)) =~= done + seq![table@]);
            assert(s.skip(size as int) =~= payload@.skip(off + size));
            match parse_dqt_spec(s.skip(size as int)) {
                Ok(more) => assert(done + (seq![table@] + more) =~= (done + seq![table@]) + more),
                Err(_) => {},
            }
        }
        out.push(table);
        off += size;
    }
    proof {
        assert(quant_views(out@) + Seq::<QuantSpec>::empty() =~= quant_views(out@));
    }
    Ok(out)
}

} // verus!
