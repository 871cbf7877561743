//! Decoding the entropy-coded scan: which tables serve which component, how
//! many blocks there are, and the block-by-block decoding itself.
use crate::block::{block_ints, decode_block, decode_block_spec};
use crate::error::{prepend, ErrorKind};
use crate::frame::{Component, FrameHeader, FrameSpec, ScanComponent};
use crate::huffman::{HuffmanSpec, TableClass};
use crate::idct::{block_samples, dequantize, idct};
use crate::model::{FrameModel, ModelSpec};
use crate::reader::{entropy_bits, entropy_end, BitReader};
use vstd::prelude::*;

verus! {

/// The largest horizontal sampling factor among the first `n` components.
pub open spec fn max_h(components: Seq<Component>, n: int) -> int
    decreases n,
{
    if n <= 0 {
        1
    } else if components[n - 1].h_factor > max_h(components, n - 1) {
        components[n - 1].h_factor as int
    } else {
        max_h(components, n - 1)
    }
}

/// The largest vertical sampling factor among the first `n` components.
pub open spec fn max_v(components: Seq<Component>, n: int) -> int
    decreases n,
{
    if n <= 0 {
        1
    } else if components[n - 1].v_factor > max_v(components, n - 1) {
        components[n - 1].v_factor as int
    } else {
        max_v(components, n - 1)
    }
}

/// The number of blocks that the first `n` components contribute to one
/// minimum coded unit: for each, its horizontal times its vertical sampling
/// factor.
pub open spec fn blocks_before(components: Seq<Component>, n: int) -> int
    decreases n,
{
    if n <= 0 {
        0
    } else {
        blocks_before(components, n - 1) + components[n - 1].h_factor * components[n - 1].v_factor
    }
}

impl FrameSpec {
    /// The largest horizontal sampling factor.
    pub open spec fn h_max(self) -> int {
        max_h(self.components, self.components.len() as int)
    }

    /// The largest vertical sampling factor.
    pub open spec fn v_max(self) -> int {
        max_v(self.components, self.components.len() as int)
    }

    /// The number of blocks in one minimum coded unit.
    pub open spec fn blocks_per_mcu(self) -> int {
        blocks_before(self.components, self.components.len() as int)
    }

    /// The number of minimum coded units side by side: the width divided by
    /// the unit's width of 8 pixels per largest horizontal factor, rounded
    /// up.
    pub open spec fn mcu_cols(self) -> int {
        (self.width + 8 * self.h_max() - 1) / (8 * self.h_max())
    }

    /// The number of rows of minimum coded units.
    pub open spec fn mcu_rows(self) -> int {
        (self.height + 8 * self.v_max() - 1) / (8 * self.v_max())
    }

    /// The number of blocks in the scan.
    pub open spec fn block_count(self) -> int {
        self.mcu_cols() * self.mcu_rows() * self.blocks_per_mcu()
    }
}

/// Bounds on the sampling geometry of well-formed components.
pub proof fn lemma_geometry_bounds(components: Seq<Component>, n: int)
    requires
        0 <= n <= components.len(),
        forall|i: int| 0 <= i < components.len() ==> (#[trigger] components[i]).wf(),
    ensures
        1 <= max_h(components, n) <= 4,
        1 <= max_v(components, n) <= 4,
        n <= blocks_before(components, n) <= 16 * n,
        forall|i: int|
            0 <= i < n ==> (#[trigger] components[i]).h_factor <= max_h(components, n)
                && components[i].v_factor <= max_v(components, n),
    decreases n,
{
    if n > 0 {
        lemma_geometry_bounds(components, n - 1);
        let c = components[n - 1];
        assert(c.wf());
        assert(1 <= c.h_factor * c.v_factor <= 16) by (nonlinear_arith)
            requires
                1 <= c.h_factor <= 4,
                1 <= c.v_factor <= 4,
        ;
    }
}

/// The blocks counted before a component grow with the component's index.
pub proof fn lemma_blocks_before_step(components: Seq<Component>, i: int, n: int)
    requires
        0 <= i < n <= components.len(),
        forall|j: int| 0 <= j < components.len() ==> (#[trigger] components[j]).wf(),
    ensures
        blocks_before(components, i) + components[i].h_factor * components[i].v_factor
            <= blocks_before(components, n),
    decreases n,
{
    if i + 1 < n {
        lemma_blocks_before_step(components, i, n - 1);
        lemma_geometry_bounds(components, n - 1);
        let c = components[n - 1];
        assert(c.wf());
        assert(0 <= c.h_factor * c.v_factor) by (nonlinear_arith)
            requires
                0 <= c.h_factor,
                0 <= c.v_factor,
        ;
    }
}

/// The quotient of a ceiling division: enough units to cover the extent,
/// and no more than the extent itself.
pub proof fn lemma_ceil_div(extent: int, unit: int)
    requires
        0 < extent,
        0 < unit,
    ensures
        1 <= (extent + unit - 1) / unit <= extent,
        ((extent + unit - 1) / unit) * unit >= extent,
{
    let q = (extent + unit - 1) / unit;
    vstd::arithmetic::div_mod::lemma_fundamental_div_mod(extent + unit - 1, unit);
    vstd::arithmetic::div_mod::lemma_mod_bound(extent + unit - 1, unit);
    assert(unit * q == q * unit) by (nonlinear_arith);
    if q < 1 {
        assert(q * unit <= 0) by (nonlinear_arith)
            requires
                q <= 0,
                unit > 0,
        ;
    }
    if q > extent {
        assert(q * unit >= (extent + 1) * unit) by (nonlinear_arith)
            requires
                q >= extent + 1,
                unit > 0,
        ;
        assert((extent + 1) * unit >= extent + unit) by (nonlinear_arith)
            requires
                extent >= 1,
                unit >= 1,
        ;
    }
}

/// The sampling geometry of a frame, worked out once.
#[derive(Clone, Copy, Debug)]
pub struct Geometry {
    /// The largest horizontal sampling factor.
    pub h_max: u8,
    /// The largest vertical sampling factor.
    pub v_max: u8,
    /// The number of blocks in one minimum coded unit.
    pub blocks_per_mcu: u8,
    /// The number of minimum coded units side by side.
    pub mcu_cols: u32,
    /// The number of rows of minimum coded units.
    pub mcu_rows: u32,
    /// The number of blocks in the scan.
    pub block_count: u64,
}

impl Geometry {
    /// Whether this is the geometry of `frame`.
    pub open spec fn matches_frame(self, frame: FrameSpec) -> bool {
        &&& self.h_max == frame.h_max()
        &&& self.v_max == frame.v_max()
        &&& self.blocks_per_mcu == frame.blocks_per_mcu()
        &&& self.mcu_cols == frame.mcu_cols()
        &&& self.mcu_rows == frame.mcu_rows()
        &&& self.block_count == frame.block_count()
        &&& 1 <= self.h_max <= 4
        &&& 1 <= self.v_max <= 4
        &&& 1 <= self.blocks_per_mcu <= 64
        &&& 1 <= self.mcu_cols <= 0xFFFF
        &&& 1 <= self.mcu_rows <= 0xFFFF
        &&& 1 <= self.block_count <= 0xFFFF * 0xFFFF * 64
    }

    /// Works out the geometry of a frame.
    pub fn of(frame: &FrameHeader) -> (g: Geometry)
        ensures
            g.matches_frame(frame@),
            frame@.wf(),
    {
        let components = frame.components();
        let n = components.len();
        let mut h_max: u8 = 1;
        let mut v_max: u8 = 1;
        let mut blocks: u8 = 0;
        let mut i: usize = 0;
        while i < n
            invariant
                i <= n,
                n == components@.len(),
                n <= 4,
                forall|j: int| 0 <= j < components@.len() ==> (#[trigger] components@[j]).wf(),
                h_max == max_h(components@, i as int),
                v_max == max_v(components@, i as int),
                blocks == blocks_before(components@, i as int),
            decreases n - i,
        {
            let c = components[i];
            proof {
                lemma_geometry_bounds(components@, i as int);
                lemma_geometry_bounds(components@, i + 1);
                assert(c.wf());
                assert(c.h_factor * c.v_factor <= 16) by (nonlinear_arith)
                    requires
                        c.h_factor <= 4,
                        c.v_factor <= 4,
                ;
            }
            if c.h_factor > h_max {
                h_max = c.h_factor;
            }
            if c.v_factor > v_max {
                v_max = c.v_factor;
            }
            blocks = blocks + c.h_factor * c.v_factor;
            i += 1;
        }
        proof {
            lemma_geometry_bounds(components@, n as int);
            lemma_ceil_div(frame@.width as int, 8 * h_max);
            lemma_ceil_div(frame@.height as int, 8 * v_max);
        }
        let unit_w = 8 * h_max as u32;
        let unit_h = 8 * v_max as u32;
        let mcu_cols = (frame.width() as u32 + unit_w - 1) / unit_w;
        let mcu_rows = (frame.height() as u32 + unit_h - 1) / unit_h;
        proof {
            assert(1 <= mcu_cols * mcu_rows <= 0xFFFF * 0xFFFF) by (nonlinear_arith)
                requires
                    1 <= mcu_cols <= 0xFFFF,
                    1 <= mcu_rows <= 0xFFFF,
            ;
            let area = mcu_cols * mcu_rows;
            assert(1 <= area * blocks <= 0xFFFF * 0xFFFF * 64) by (nonlinear_arith)
                requires
                    1 <= area <= 0xFFFF * 0xFFFF,
                    1 <= blocks <= 64,
            ;
        }
        let block_count = mcu_cols as u64 * mcu_rows as u64 * blocks as u64;
        Geometry { h_max, v_max, blocks_per_mcu: blocks, mcu_cols, mcu_rows, block_count }
    }
}

/// What decoding a component's blocks takes: how many blocks it has in one
/// minimum coded unit, its two Huffman tables, and its quantization table's
/// entries.
pub struct PlanEntry {
    pub blocks: int,
    pub dc: HuffmanSpec,
    pub ac: HuffmanSpec,
    pub quant: Seq<u16>,
}

/// The plan entry for the `j`-th component of the frame under the `j`-th
/// component of the scan. The scan is malformed if it selects another
/// component than the frame lists at that place, if it names a table slot
/// above 3, or if the component's quantization table was never defined; a
/// Huffman table that was never defined is reported as such.
pub open spec fn bind_component(
    model: ModelSpec,
    frame: FrameSpec,
    scan: Seq<ScanComponent>,
    j: int,
) -> Result<PlanEntry, ErrorKind> {
    let c = frame.components[j];
    let s = scan[j];
    if s.selector != c.id || !s.wf() {
        Err(ErrorKind::MalformedSegment)
    } else if model.dc[s.dc_table as int] is None || model.ac[s.ac_table as int] is None {
        Err(ErrorKind::UndefinedHuffmanTable)
    } else if model.quant[c.qt_index as int] is None {
        Err(ErrorKind::MalformedSegment)
    } else {
        Ok(
            PlanEntry {
                blocks: c.h_factor * c.v_factor,
                dc: model.dc[s.dc_table as int]->0,
                ac: model.ac[s.ac_table as int]->0,
                quant: model.quant[c.qt_index as int]->0.values,
            },
        )
    }
}

/// The plan entries for the components from the `j`-th on; the first
/// component that cannot be bound decides the error.
pub open spec fn bind_from(model: ModelSpec, frame: FrameSpec, scan: Seq<ScanComponent>, j: int) -> Result<
    Seq<PlanEntry>,
    ErrorKind,
>
    decreases scan.len() - j,
{
    if j < 0 || j >= scan.len() {
        Ok(Seq::empty())
    } else {
        match bind_component(model, frame, scan, j) {
            Err(e) => Err(e),
            Ok(entry) => prepend(seq![entry], bind_from(model, frame, scan, j + 1)),
        }
    }
}

/// The plan for a scan: one entry per component. A scan without a frame
/// header before it, or one that does not cover exactly the frame's
/// components, is unsupported.
pub open spec fn bind_scan(model: ModelSpec, scan: Seq<ScanComponent>) -> Result<
    Seq<PlanEntry>,
    ErrorKind,
> {
    match model.frame {
        None => Err(ErrorKind::UnsupportedEncoding),
        Some(frame) => {
            if scan.len() != frame.components.len() {
                Err(ErrorKind::UnsupportedEncoding)
            } else {
                bind_from(model, frame, scan, 0)
            }
        },
    }
}

/// A plan that exists has an entry for every component from `j` on, each
/// made from tables that the model holds.
pub proof fn lemma_bind_from(model: ModelSpec, frame: FrameSpec, scan: Seq<ScanComponent>, j: int)
    requires
        0 <= j <= scan.len(),
    ensures
        bind_from(model, frame, scan, j) matches Ok(plan) ==> plan.len() == scan.len() - j
            && forall|i: int|
            j <= i < scan.len() ==> bind_component(model, frame, scan, i) == Ok::<
                PlanEntry,
                ErrorKind,
            >(#[trigger] plan[i - j]),
    decreases scan.len() - j,
{
    if j < scan.len() {
        lemma_bind_from(model, frame, scan, j + 1);
        match bind_component(model, frame, scan, j) {
            Err(_) => {},
            Ok(entry) => match bind_from(model, frame, scan, j + 1) {
                Err(_) => {},
                Ok(rest) => {
                    let plan = seq![entry] + rest;
                    assert forall|i: int| j <= i < scan.len() implies bind_component(
                        model,
                        frame,
                        scan,
                        i,
                    ) == Ok::<PlanEntry, ErrorKind>(#[trigger] plan[i - j]) by {
                        if i > j {
                            assert(plan[i - j] == rest[i - (j + 1)]);
                        }
                    }
                },
            },
        }
    }
}

/// A scan that selects a Huffman table slot which holds no table cannot be
/// decoded: if its components up to some place can be bound, and the one at
/// that place names the frame's component and valid slots, one of them
/// empty, then binding the scan reports an undefined Huffman table.
pub proof fn lemma_undefined_table_is_reported(
    model: ModelSpec,
    scan: Seq<ScanComponent>,
    j: int,
)
    requires
        model.frame is Some,
        scan.len() == model.frame->0.components.len(),
        0 <= j < scan.len(),
        forall|i: int| 0 <= i < j ==> bind_component(model, model.frame->0, scan, i) is Ok,
        scan[j].selector == model.frame->0.components[j].id,
        scan[j].wf(),
        model.dc[scan[j].dc_table as int] is None || model.ac[scan[j].ac_table as int] is None,
    ensures
        bind_scan(model, scan) == Err::<Seq<PlanEntry>, ErrorKind>(
            ErrorKind::UndefinedHuffmanTable,
        ),
        forall|bytes: Seq<u8>, pos: int|
            #[trigger] decode_scan_spec(model, scan, bytes, pos) == Err::<(Seq<u8>, int), ErrorKind>(
                ErrorKind::UndefinedHuffmanTable,
            ),
{
    lemma_first_failure_decides(model, model.frame->0, scan, 0, j);
}

/// The first component that cannot be bound decides the outcome for all
/// components from any earlier place on.
proof fn lemma_first_failure_decides(
    model: ModelSpec,
    frame: FrameSpec,
    scan: Seq<ScanComponent>,
    from: int,
    j: int,
)
    requires
        0 <= from <= j < scan.len(),
        forall|i: int| from <= i < j ==> bind_component(model, frame, scan, i) is Ok,
        bind_component(model, frame, scan, j) is Err,
    ensures
        bind_from(model, frame, scan, from) == Err::<Seq<PlanEntry>, ErrorKind>(
            bind_component(model, frame, scan, j)->Err_0,
        ),
    decreases j - from,
{
    if from < j {
        lemma_first_failure_decides(model, frame, scan, from + 1, j);
    }
}

/// Where block decoding stands: the bits not yet read, the DC predictor of
/// each component, and the samples of all blocks decoded so far, 64 per
/// block in row-major order, block after block.
pub struct ScanState {
    pub bits: Seq<bool>,
    pub predictors: Seq<int>,
    pub samples: Seq<u8>,
}

/// The component and the block within it that follow block `b` of
/// component `ci` in the interleaving: the component's blocks one after the
/// other, then the next component, and after the last component the first
/// one again.
pub open spec fn next_position(plan: Seq<PlanEntry>, ci: int, b: int) -> (int, int) {
    if b + 1 < plan[ci].blocks {
        (ci, b + 1)
    } else if ci + 1 < plan.len() {
        (ci + 1, 0)
    } else {
        (0, 0)
    }
}

/// Decodes `remaining` more blocks, starting with block `b` of component
/// `ci`: the samples of all blocks of the scan. Each block is decoded with
/// its component's tables and predictor, dequantized, transformed, and its
/// samples put behind those already there; its DC coefficient becomes the
/// component's predictor.
pub open spec fn decode_blocks(
    plan: Seq<PlanEntry>,
    state: ScanState,
    ci: int,
    b: int,
    remaining: nat,
) -> Result<Seq<u8>, ErrorKind>
    decreases remaining,
{
    if remaining == 0 {
        Ok(state.samples)
    } else {
        match decode_block_spec(plan[ci].dc, plan[ci].ac, state.bits, state.predictors[ci]) {
            Err(e) => Err(e),
            Ok((block, rest)) => decode_blocks(
                plan,
                ScanState {
                    bits: rest,
                    predictors: state.predictors.update(ci, block[0]),
                    samples: state.samples + block_samples(block, plan[ci].quant),
                },
                next_position(plan, ci, b).0,
                next_position(plan, ci, b).1,
                (remaining - 1) as nat,
            ),
        }
    }
}

/// Binding the components of a scan fails in two ways only: the scan is
/// malformed, or it names a Huffman table that is not there.
pub proof fn lemma_bind_from_failure(
    model: ModelSpec,
    frame: FrameSpec,
    scan: Seq<ScanComponent>,
    j: int,
)
    ensures
        bind_from(model, frame, scan, j) matches Err(e) ==> e == ErrorKind::MalformedSegment || e
            == ErrorKind::UndefinedHuffmanTable,
    decreases scan.len() - j,
{
    if 0 <= j < scan.len() {
        lemma_bind_from_failure(model, frame, scan, j + 1);
    }
}

/// Binding a scan fails in three ways only: the scan is unsupported or
/// malformed, or it names a Huffman table that is not there.
pub proof fn lemma_bind_failure(model: ModelSpec, scan: Seq<ScanComponent>)
    ensures
        bind_scan(model, scan) matches Err(e) ==> e == ErrorKind::MalformedSegment || e
            == ErrorKind::UndefinedHuffmanTable || e == ErrorKind::UnsupportedEncoding,
{
    if model.frame is Some {
        lemma_bind_from_failure(model, model.frame->0, scan, 0);
    }
}

/// Decoding blocks fails only in the ways of entropy-coded data.
pub proof fn lemma_decode_blocks_failure(
    plan: Seq<PlanEntry>,
    state: ScanState,
    ci: int,
    b: int,
    remaining: nat,
)
    ensures
        decode_blocks(plan, state, ci, b, remaining) matches Err(e)
            ==> crate::block::is_scan_data_failure(e),
    decreases remaining,
{
    if remaining > 0 {
        crate::block::lemma_decode_block_failure(
            plan[ci].dc,
            plan[ci].ac,
            state.bits,
            state.predictors[ci],
        );
        match decode_block_spec(plan[ci].dc, plan[ci].ac, state.bits, state.predictors[ci]) {
            Err(_) => {},
            Ok((block, rest)) => {
                lemma_decode_blocks_failure(
                    plan,
                    ScanState {
                        bits: rest,
                        predictors: state.predictors.update(ci, block[0]),
                        samples: state.samples + block_samples(block, plan[ci].quant),
                    },
                    next_position(plan, ci, b).0,
                    next_position(plan, ci, b).1,
                    (remaining - 1) as nat,
                );
            },
        }
    }
}

/// The state in which a scan starts: all predictors zero, no samples yet.
pub open spec fn initial_state(bits: Seq<bool>) -> ScanState {
    ScanState { bits, predictors: Seq::new(4, |i: int| 0int), samples: Seq::empty() }
}

/// The samples of the scan whose entropy-coded data starts at `pos`, and
/// the offset at which that data ends. Beyond what binding the scan and
/// decoding its blocks may report, a scan with more samples than the
/// machine can address is unsupported.
pub open spec fn decode_scan_spec(
    model: ModelSpec,
    scan: Seq<ScanComponent>,
    bytes: Seq<u8>,
    pos: int,
) -> Result<(Seq<u8>, int), ErrorKind> {
    match bind_scan(model, scan) {
        Err(e) => Err(e),
        Ok(plan) => {
            let total = model.frame->0.block_count();
            if 64 * total > usize::MAX {
                Err(ErrorKind::UnsupportedEncoding)
            } else {
                match decode_blocks(
                    plan,
                    initial_state(entropy_bits(bytes, pos)),
                    0,
                    0,
                    total as nat,
                ) {
                    Err(e) => Err(e),
                    Ok(samples) => Ok((samples, entropy_end(bytes, pos))),
                }
            }
        },
    }
}

/// Finds out whether the scan can be decoded with what the model holds.
pub fn validate_scan(model: &FrameModel, scan: &Vec<ScanComponent>) -> (r: Result<(), ErrorKind>)
    ensures
        match bind_scan(model@, scan@) {
            Ok(_) => r is Ok,
            Err(e) => r == Err::<(), ErrorKind>(e),
        },
{
    let frame = match model.frame() {
        None => {
            return Err(ErrorKind::UnsupportedEncoding);
        },
        Some(frame) => frame,
    };
    let components = frame.components();
    if scan.len() != components.len() {
        return Err(ErrorKind::UnsupportedEncoding);
    }
    let n = scan.len();
    let mut j: usize = 0;
    while j < n
        invariant
            j <= n,
            n == scan@.len(),
            n == components@.len(),
            components@ == frame@.components,
            model@.frame == Some(frame@),
            frame@.wf(),
            bind_from(model@, frame@, scan@, j as int) is Ok ==> bind_scan(model@, scan@) is Ok,
            bind_from(model@, frame@, scan@, j as int) matches Err(e) ==> bind_scan(model@, scan@)
                == Err::<Seq<PlanEntry>, ErrorKind>(e),
        decreases n - j,
    {
        let c = components[j];
        let s = scan[j];
        assert(c.wf());
        if s.selector != c.id {
            return Err(ErrorKind::MalformedSegment);
        }
        if s.dc_table >= 4 || s.ac_table >= 4 {
            return Err(ErrorKind::MalformedSegment);
        }
        if model.huffman_table(TableClass::Dc, s.dc_table as usize).is_none() {
            return Err(ErrorKind::UndefinedHuffmanTable);
        }
        if model.huffman_table(TableClass::Ac, s.ac_table as usize).is_none() {
            return Err(ErrorKind::UndefinedHuffmanTable);
        }
        if model.quant_table(c.qt_index as usize).is_none() {
            return Err(ErrorKind::MalformedSegment);
        }
        j += 1;
    }
    Ok(())
}

/// Decodes the next block of a component and turns it into samples: the
/// block's DC coefficient, which is the component's next predictor, and its
/// 64 samples.
fn next_block(
    model: &FrameModel,
    component: Component,
    selection: ScanComponent,
    bits: &mut BitReader,
    predictor: i32,
) -> (r: Result<(i32, [u8; 64]), ErrorKind>)
    requires
        component.wf(),
        selection.wf(),
        model@.dc[selection.dc_table as int] is Some,
        model@.ac[selection.ac_table as int] is Some,
        model@.quant[component.qt_index as int] is Some,
        crate::block::coefficient_in_range(predictor as int),
    ensures
        final(bits).bytes() == old(bits).bytes(),
        final(bits).end() == old(bits).end(),
        match decode_block_spec(
            model@.dc[selection.dc_table as int]->0,
            model@.ac[selection.ac_table as int]->0,
            old(bits).rest(),
            predictor as int,
        ) {
            Ok((block, rest)) => r matches Ok((dc, out)) && dc == block[0]
                && crate::block::coefficient_in_range(dc as int) && out@ == block_samples(
                block,
                model@.quant[component.qt_index as int]->0.values,
            ) && final(bits).rest() == rest,
            Err(e) => r matches Err(f) && f == e,
        },
{
    let dc = model.huffman_table(TableClass::Dc, selection.dc_table as usize).unwrap();
    let ac = model.huffman_table(TableClass::Ac, selection.ac_table as usize).unwrap();
    let quant = model.quant_table(component.qt_index as usize).unwrap();
    let block = match decode_block(dc, ac, bits, predictor) {
        Err(e) => {
            return Err(e);
        },
        Ok(block) => block,
    };
    let out = idct(&dequantize(&block, quant));
    proof {
        assert(block_ints(block@)[0] == block@[0] as int);
    }
    Ok((block[0], out))
}

/// Puts the 64 samples of a block behind those already there.
fn append_block(samples: &mut Vec<u8>, out: &[u8; 64])
    ensures
        final(samples)@ == old(samples)@ + out@,
{
    let mut k: usize = 0;
    while k < 64
        invariant
            k <= 64,
            samples@ == old(samples)@ + out@.take(k as int),
        decreases 64 - k,
    {
        samples.push(out[k]);
        proof {
            assert(out@.take(k + 1) =~= out@.take(k as int).push(out@[k as int]));
            assert(old(samples)@ + out@.take(k + 1) =~= (old(samples)@ + out@.take(k as int)).push(
                out@[k as int],
            ));
        }
        k += 1;
    }
    proof {
        assert(out@.take(64) =~= out@);
    }
}

/// A component of a bound scan has at least one block in each minimum coded
/// unit, and its tables are there.
proof fn lemma_bound_component(
    model: ModelSpec,
    frame: FrameSpec,
    scan: Seq<ScanComponent>,
    i: int,
    entry: PlanEntry,
)
    requires
        frame.wf(),
        0 <= i < frame.components.len(),
        bind_component(model, frame, scan, i) == Ok::<PlanEntry, ErrorKind>(entry),
    ensures
        1 <= entry.blocks <= 16,
        entry.blocks == frame.components[i].h_factor * frame.components[i].v_factor,
        scan[i].wf(),
        model.dc[scan[i].dc_table as int] == Some(entry.dc),
        model.ac[scan[i].ac_table as int] == Some(entry.ac),
        model.quant[frame.components[i].qt_index as int] is Some,
        model.quant[frame.components[i].qt_index as int]->0.values == entry.quant,
{
    let c = frame.components[i];
    assert(c.wf());
    assert(1 <= c.h_factor * c.v_factor <= 16) by (nonlinear_arith)
        requires
            1 <= c.h_factor <= 4,
            1 <= c.v_factor <= 4,
    ;
}

/// Decodes `total` blocks from the entropy-coded data that starts at byte
/// `pos`, for a scan that has been validated against the model.
fn decode_all_blocks(
    model: &FrameModel,
    scan: &Vec<ScanComponent>,
    data: &[u8],
    pos: usize,
    total: usize,
) -> (r: Result<(Vec<u8>, usize), ErrorKind>)
    requires
        pos <= data@.len(),
        bind_scan(model@, scan@) is Ok,
        64 * total <= usize::MAX,
    ensures
        match decode_blocks(
            bind_scan(model@, scan@)->Ok_0,
            initial_state(entropy_bits(data@, pos as int)),
            0,
            0,
            total as nat,
        ) {
            Ok(samples) => r matches Ok((v, p)) && v@ == samples && p == entropy_end(
                data@,
                pos as int,
            ) && pos <= p <= data@.len() && samples.len() == 64 * total,
            Err(e) => r matches Err(f) && f == e,
        },
{
    let frame = model.frame().unwrap();
    let components = frame.components();
    let n = components.len();
    let ghost plan = bind_scan(model@, scan@)->Ok_0;
    let ghost start = initial_state(entropy_bits(data@, pos as int));
    proof {
        lemma_bind_from(model@, frame@, scan@, 0);
        assert(bind_from(model@, frame@, scan@, 0) == Ok::<Seq<PlanEntry>, ErrorKind>(plan));
        assert forall|i: int| 0 <= i < n implies bind_component(model@, frame@, scan@, i) == Ok::<
            PlanEntry,
            ErrorKind,
        >(#[trigger] plan[i]) by {
            assert(plan[i - 0] == plan[i]);
        }
        crate::reader::lemma_entropy_end_bounds(data@, pos as int);
        lemma_bound_component(model@, frame@, scan@, 0, plan[0]);
    }
    let mut bits = BitReader::new(data, pos);
    let mut predictors: [i32; 4] = [0i32; 4];
    let mut samples: Vec<u8> = Vec::new();
    let mut ci: usize = 0;
    let mut b: u8 = 0;
    let mut done: usize = 0;
    proof {
        assert(block_ints(predictors@) =~= start.predictors);
    }
    while done < total
        invariant
            done <= total,
            64 * total <= usize::MAX,
            n == components@.len(),
            n == scan@.len(),
            n == plan.len(),
            1 <= n <= 4,
            plan == bind_scan(model@, scan@)->Ok_0,
            start == initial_state(entropy_bits(data@, pos as int)),
            components@ == frame@.components,
            frame@.wf(),
            forall|i: int|
                0 <= i < n ==> bind_component(model@, frame@, scan@, i) == Ok::<
                    PlanEntry,
                    ErrorKind,
                >(#[trigger] plan[i]),
            ci < n,
            0 <= b < plan[ci as int].blocks,
            bits.bytes() == data@,
            bits.end() == entropy_end(data@, pos as int),
            samples@.len() == 64 * done,
            forall|i: int|
                0 <= i < 4 ==> crate::block::coefficient_in_range(#[trigger] predictors@[i] as int),
            decode_blocks(
                plan,
                ScanState {
                    bits: bits.rest(),
                    predictors: block_ints(predictors@),
                    samples: samples@,
                },
                ci as int,
                b as int,
                (total - done) as nat,
            ) == decode_blocks(plan, start, 0, 0, total as nat),
        decreases total - done,
    {
        let c = components[ci];
        let s = scan[ci];
        let ghost before = block_ints(predictors@);
        let ghost state = ScanState {
            bits: bits.rest(),
            predictors: block_ints(predictors@),
            samples: samples@,
        };
        proof {
            lemma_bound_component(model@, frame@, scan@, ci as int, plan[ci as int]);
            assert(state.predictors[ci as int] == predictors@[ci as int] as int);
        }
        let (dc, out) = match next_block(model, c, s, &mut bits, predictors[ci]) {
            Err(e) => {
                return Err(e);
            },
            Ok(pair) => pair,
        };
        predictors[ci] = dc;
        append_block(&mut samples, &out);
        proof {
            assert(block_ints(predictors@) =~= before.update(ci as int, dc as int));
        }
        if b + 1 < c.h_factor * c.v_factor {
            b += 1;
        } else if ci + 1 < n {
            ci += 1;
            b = 0;
            proof {
                lemma_bound_component(model@, frame@, scan@, ci as int, plan[ci as int]);
            }
        } else {
            ci = 0;
            b = 0;
            proof {
                lemma_bound_component(model@, frame@, scan@, 0, plan[0]);
            }
        }
        done += 1;
    }
    let end = bits.finish();
    Ok((samples, end))
}

/// Decodes the scan whose entropy-coded data starts at byte `pos` of
/// `data`: the samples of all its blocks, 64 per block, and the offset at
/// which the entropy-coded data ends.
pub fn decode_scan(model: &FrameModel, scan: &Vec<ScanComponent>, data: &[u8], pos: usize) -> (r:
    Result<(Vec<u8>, usize), ErrorKind>)
    requires
        pos <= data@.len(),
    ensures
        match decode_scan_spec(model@, scan@, data@, pos as int) {
            Ok((samples, end)) => r matches Ok((v, p)) && v@ == samples && p == end && pos <= p
                <= data@.len() && (model@.frame matches Some(frame) && frame.wf() && samples.len()
                == 64 * frame.block_count()),
            Err(e) => r matches Err(f) && f == e,
        },
{
    match validate_scan(model, scan) {
        Err(e) => {
            return Err(e);
        },
        Ok(_) => {},
    }
    let geometry = Geometry::of(model.frame().unwrap());
    if geometry.block_count > (usize::MAX / 64) as u64 {
        return Err(ErrorKind::UnsupportedEncoding);
    }
    decode_all_blocks(model, scan, data, pos, geometry.block_count as usize)
}

} // verus!
