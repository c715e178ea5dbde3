use vstd::prelude::*;
use crate::geometry::{Offset, Pos2};

verus! {

/// One named input that a block declares.
#[derive(Debug)]
pub struct InputDefinition {
    pub name: String,
}

/// The current text of one named input of a block.
#[derive(Debug)]
pub struct InputValue {
    pub name: String,
    pub value: String,
}

/// One block on the canvas or in the palette.
#[derive(Debug)]
pub struct BlockSection {
    pub id: String,
    pub block_colour: Option<String>,
    pub shown_element: Option<String>,
    pub child_offset: Option<Offset>,
    pub inputs: Vec<InputDefinition>,
    pub pos: Pos2,
    pub attached_to: Option<usize>,
    pub children: Vec<usize>,
    pub input_values: Vec<InputValue>,
}

/// The sections of a block definition document.
#[derive(Debug)]
pub struct BlockContainer {
    pub sections: Vec<BlockSection>,
}

/// A block definition document.
#[derive(Debug)]
pub struct BlockFile {
    pub block: BlockContainer,
}

/// The names of a sequence of input declarations.
pub open spec fn input_names(inputs: Seq<InputDefinition>) -> Seq<Seq<char>> {
    inputs.map_values(|d: InputDefinition| d.name@)
}

/// The input values as a map from input name to text; where a name is stored
/// twice, the last entry counts.
pub open spec fn values_map(vals: Seq<InputValue>) -> Map<Seq<char>, Seq<char>>
    decreases vals.len(),
{
    if vals.len() == 0 {
        Map::empty()
    } else {
        values_map(vals.drop_last()).insert(vals.last().name@, vals.last().value@)
    }
}

/// No name is stored twice.
pub open spec fn names_unique(vals: Seq<InputValue>) -> bool {
    forall|i: int, j: int| 0 <= i < j < vals.len() ==> vals[i].name@ != vals[j].name@
}

impl BlockSection {
    /// The offset at which children are anchored; zero when none is given.
    pub open spec fn offset(self) -> Offset {
        match self.child_offset {
            Some(o) => o,
            None => Offset { x: 0, y: 0 },
        }
    }

    /// The coordinates the block holds lie inside the canvas range.
    pub open spec fn coords_wf(self) -> bool {
        self.pos.wf() && self.offset().wf()
    }

    /// The label shown on the block: its display label, else its id.
    pub open spec fn label(self) -> Seq<char> {
        match self.shown_element {
            Some(s) => s@,
            None => self.id@,
        }
    }

    /// The input values as a map from name to text.
    pub open spec fn values(self) -> Map<Seq<char>, Seq<char>> {
        values_map(self.input_values@)
    }

    pub fn offset_of(&self) -> (r: Offset)
        ensures
            r == self.offset(),
    {
        match self.child_offset {
            Some(o) => o,
            None => Offset { x: 0, y: 0 },
        }
    }

    pub fn label_of(&self) -> (r: String)
        ensures
            r@ == self.label(),
    {
        match &self.shown_element {
            Some(s) => s.clone(),
            None => self.id.clone(),
        }
    }
}

} // verus!
