//! What a decode session has learnt from the segments so far: the
//! quantization tables, the Huffman tables and the frame header.
use crate::frame::{FrameHeader, FrameSpec};
use crate::huffman::{DefinitionSpec, HuffmanSpec, HuffmanTable, TableClass, TableDefinition};
use crate::quant::{QuantSpec, QuantTable};
use vstd::prelude::*;

verus! {

/// The tables and the frame header: four slots for quantization tables,
/// four each for DC and AC Huffman tables, and the frame header once it has
/// been read.
pub struct ModelSpec {
    pub quant: Seq<Option<QuantSpec>>,
    pub dc: Seq<Option<HuffmanSpec>>,
    pub ac: Seq<Option<HuffmanSpec>>,
    pub frame: Option<FrameSpec>,
}

impl ModelSpec {
    /// The model of a session that has read nothing yet.
    pub open spec fn empty() -> ModelSpec {
        ModelSpec {
            quant: Seq::new(4, |i: int| None::<QuantSpec>),
            dc: Seq::new(4, |i: int| None::<HuffmanSpec>),
            ac: Seq::new(4, |i: int| None::<HuffmanSpec>),
            frame: None,
        }
    }

    /// The model after one more quantization table: it takes its slot,
    /// replacing what was there.
    pub open spec fn with_quant(self, table: QuantSpec) -> ModelSpec {
        ModelSpec { quant: self.quant.update(table.slot as int, Some(table)), ..self }
    }

    /// The model after a run of quantization tables, applied in order.
    pub open spec fn with_quants(self, tables: Seq<QuantSpec>) -> ModelSpec
        decreases tables.len(),
    {
        if tables.len() == 0 {
            self
        } else {
            self.with_quants(tables.drop_last()).with_quant(tables.last())
        }
    }

    /// The model after one more Huffman table: it takes its slot in its
    /// class, replacing what was there.
    pub open spec fn with_huffman(self, definition: DefinitionSpec) -> ModelSpec {
        match definition.class {
            TableClass::Dc => ModelSpec {
                dc: self.dc.update(definition.slot as int, Some(definition.table)),
                ..self
            },
            TableClass::Ac => ModelSpec {
                ac: self.ac.update(definition.slot as int, Some(definition.table)),
                ..self
            },
        }
    }

    /// The model after a run of Huffman tables, applied in order.
    pub open spec fn with_huffmans(self, definitions: Seq<DefinitionSpec>) -> ModelSpec
        decreases definitions.len(),
    {
        if definitions.len() == 0 {
            self
        } else {
            self.with_huffmans(definitions.drop_last()).with_huffman(definitions.last())
        }
    }

    /// The model after a frame header, which replaces any earlier one.
    pub open spec fn with_frame(self, frame: FrameSpec) -> ModelSpec {
        ModelSpec { frame: Some(frame), ..self }
    }
}

/// Tables leave the frame header alone.
pub proof fn lemma_tables_keep_frame(
    model: ModelSpec,
    tables: Seq<QuantSpec>,
    definitions: Seq<DefinitionSpec>,
)
    ensures
        model.with_quants(tables).frame == model.frame,
        model.with_huffmans(definitions).frame == model.frame,
    decreases tables.len() + definitions.len(),
{
    if tables.len() > 0 {
        lemma_tables_keep_frame(model, tables.drop_last(), definitions);
    } else if definitions.len() > 0 {
        lemma_tables_keep_frame(model, tables, definitions.drop_last());
    }
}

/// The tables and the frame header of a decode session.
#[derive(Debug)]
pub struct FrameModel {
    quant: [Option<QuantTable>; 4],
    dc: [Option<HuffmanTable>; 4],
    ac: [Option<HuffmanTable>; 4],
    frame: Option<FrameHeader>,
}

impl View for FrameModel {
    type V = ModelSpec;

    closed spec fn view(&self) -> ModelSpec {
        ModelSpec {
            quant: Seq::new(
                4,
                |i: int|
                    match self.quant@[i] {
                        Some(t) => Some(t@),
                        None => None,
                    },
            ),
            dc: Seq::new(
                4,
                |i: int|
                    match self.dc@[i] {
                        Some(t) => Some(t@),
                        None => None,
                    },
            ),
            ac: Seq::new(
                4,
                |i: int|
                    match self.ac@[i] {
                        Some(t) => Some(t@),
                        None => None,
                    },
            ),
            frame: match self.frame {
                Some(f) => Some(f@),
                None => None,
            },
        }
    }
}

impl FrameModel {
    /// The model of a session that has read nothing yet.
    pub fn new() -> (m: FrameModel)
        ensures
            m@ == ModelSpec::empty(),
    {
        let m = FrameModel {
            quant: [None, None, None, None],
            dc: [None, None, None, None],
            ac: [None, None, None, None],
            frame: None,
        };
        proof {
            assert(m@.quant =~= ModelSpec::empty().quant);
            assert(m@.dc =~= ModelSpec::empty().dc);
            assert(m@.ac =~= ModelSpec::empty().ac);
        }
        m
    }

    /// Puts a quantization table into its slot.
    pub fn set_quant(&mut self, table: QuantTable)
        ensures
            final(self)@ == old(self)@.with_quant(table@),
    {
        let slot = table.slot() as usize;
        self.quant[slot] = Some(table);
        proof {
            assert(self@.quant =~= old(self)@.quant.update(slot as int, Some(table@)));
            assert(self@.dc =~= old(self)@.dc);
            assert(self@.ac =~= old(self)@.ac);
        }
    }

    /// Puts every table of a quantization segment into its slot, in order.
    pub fn set_quants(&mut self, tables: &Vec<QuantTable>)
        ensures
            final(self)@ == old(self)@.with_quants(crate::quant::quant_views(tables@)),
    {
        let ghost views = crate::quant::quant_views(tables@);
        let mut i: usize = 0;
        while i < tables.len()
            invariant
                i <= tables@.len(),
                views == crate::quant::quant_views(tables@),
                self@ == old(self)@.with_quants(views.take(i as int)),
            decreases tables@.len() - i,
        {
            self.set_quant(tables[i]);
            proof {
                assert(views.take(i + 1).drop_last() =~= views.take(i as int));
                assert(views.take(i + 1).last() == tables@[i as int]@);
            }
            i += 1;
        }
        proof {
            assert(views.take(views.len() as int) =~= views);
        }
    }

    /// Puts a Huffman table into its slot.
    pub fn set_huffman(&mut self, definition: TableDefinition)
        requires
            definition.slot < 4,
        ensures
            final(self)@ == old(self)@.with_huffman(definition@),
    {
        let slot = definition.slot as usize;
        let ghost table = definition.table@;
        let held = definition.table;
        match definition.class {
            TableClass::Dc => {
                self.dc[slot] = Some(held);
                proof {
                    assert(self@.dc =~= old(self)@.dc.update(slot as int, Some(table)));
                    assert(self@.ac =~= old(self)@.ac);
                }
            },
            TableClass::Ac => {
                self.ac[slot] = Some(held);
                proof {
                    assert(self@.ac =~= old(self)@.ac.update(slot as int, Some(table)));
                    assert(self@.dc =~= old(self)@.dc);
                }
            },
        }
        proof {
            assert(self@.quant =~= old(self)@.quant);
        }
    }

    /// Puts every table of a Huffman segment into its slot, in order.
    pub fn set_huffmans(&mut self, definitions: Vec<TableDefinition>)
        requires
            forall|i: int| 0 <= i < definitions@.len() ==> (#[trigger] definitions@[i]).slot < 4,
        ensures
            final(self)@ == old(self)@.with_huffmans(
                crate::huffman::definition_views(definitions@),
            ),
    {
        let ghost views = crate::huffman::definition_views(definitions@);
        let ghost mut done: int = 0;
        let mut rest = definitions;
        while rest.len() > 0
            invariant
                0 <= done <= views.len(),
                done + rest@.len() == views.len(),
                forall|i: int| 0 <= i < rest@.len() ==> (#[trigger] rest@[i]).slot < 4,
                forall|i: int| 0 <= i < rest@.len() ==> (#[trigger] rest@[i])@ == views[done + i],
                self@ == old(self)@.with_huffmans(views.take(done)),
            decreases rest@.len(),
        {
            let ghost before = rest@;
            let definition = rest.remove(0);
            proof {
                assert(definition == before[0]);
                assert forall|i: int| 0 <= i < rest@.len() implies (#[trigger] rest@[i]).slot < 4
                    && rest@[i]@ == views[done + 1 + i] by {
                    assert(rest@[i] == before[i + 1]);
                }
                assert(views.take(done + 1).drop_last() =~= views.take(done));
                assert(views.take(done + 1).last() == definition@);
            }
            self.set_huffman(definition);
            proof {
                done = done + 1;
            }
        }
        proof {
            assert(views.take(views.len() as int) =~= views);
        }
    }

    /// Takes the frame header, replacing any earlier one.
    pub fn set_frame(&mut self, frame: FrameHeader)
        ensures
            final(self)@ == old(self)@.with_frame(frame@),
    {
        self.frame = Some(frame);
        proof {
            assert(self@.quant =~= old(self)@.quant);
            assert(self@.dc =~= old(self)@.dc);
            assert(self@.ac =~= old(self)@.ac);
        }
    }

    /// The frame header, if one has been read.
    pub fn frame(&self) -> (f: Option<&FrameHeader>)
        ensures
            match f {
                Some(h) => self@.frame == Some(h@),
                None => self@.frame is None,
            },
    {
        self.frame.as_ref()
    }

    /// The quantization table in `slot`, if one has been defined.
    pub fn quant_table(&self, slot: usize) -> (t: Option<&QuantTable>)
        requires
            slot < 4,
        ensures
            match t {
                Some(q) => self@.quant[slot as int] == Some(q@),
                None => self@.quant[slot as int] is None,
            },
    {
        self.quant[slot].as_ref()
    }

    /// The Huffman table of the given class in `slot`, if one has been
    /// defined.
    pub fn huffman_table(&self, class: TableClass, slot: usize) -> (t: Option<&HuffmanTable>)
        requires
            slot < 4,
        ensures
            match t {
                Some(h) => (match class {
                    TableClass::Dc => self@.dc[slot as int],
                    TableClass::Ac => self@.ac[slot as int],
                }) == Some(h@),
                None => (match class {
                    TableClass::Dc => self@.dc[slot as int],
                    TableClass::Ac => self@.ac[slot as int],
                }) is None,
            },
    {
        match class {
            TableClass::Dc => self.dc[slot].as_ref(),
            TableClass::Ac => self.ac[slot].as_ref(),
        }
    }
}

} // verus!
