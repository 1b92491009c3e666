//! NeuralType: the verified core of a generative font engine.
//!
//! A font here is a model that draws each letter in context. This crate
//! holds the parts of the engine that are exact: the square-Kufic
//! teacher, Arabic joining and bidi-lite ordering, cluster segmentation,
//! outline tracing of occupancy grids and contour chaining, harfrust
//! shaping into cluster records, the distillation stages' bookkeeping
//! (outline text, shape numbering, sheets), the trainers' data
//! preparation, the `.ntf` container and tensor layout, the
//! outline-token decoder, and the training log and demo caret logic.
use vstd::prelude::*;

pub mod art;
pub mod canvas;
pub mod caret;
pub mod chain;
pub mod clusters;
pub mod container;
pub mod contour;
pub mod corpus;
pub mod degree;
pub mod export;
pub mod line;
pub mod pathscan;
pub mod runlog;
pub mod shape;
pub mod shapes;
pub mod shaping;
pub mod sheet;
pub mod text;
pub mod tokens;
pub mod trace;
pub mod training;

verus! {

/// Glyph canvas width, in grid cells.
pub const GRID_W: usize = 16;

/// Glyph canvas height, in grid cells.
pub const GRID_H: usize = 14;

/// Row index of the baseline stroke (letters sit on this row; rows
/// below are the descender zone).
pub const BASELINE_ROW: usize = 10;

/// Maximum kashida elongation, in extra baseline columns.
pub const MAX_ELONG: usize = 4;

/// The four contextual joining forms of the Arabic script.
#[derive(Clone, Copy, Debug, PartialEq, Eq, Hash, Structural)]
pub enum Form {
    Isolated,
    Initial,
    Medial,
    Final,
}

impl Form {
    /// Position of the form in `Form::ALL` order.
    pub open spec fn spec_index(self) -> nat {
        match self {
            Form::Isolated => 0,
            Form::Initial => 1,
            Form::Medial => 2,
            Form::Final => 3,
        }
    }

    /// Does this form connect to the preceding letter (on its right)?
    pub open spec fn spec_joins_prev(self) -> bool {
        self is Medial || self is Final
    }

    /// Does this form connect to the following letter (on its left)?
    pub open spec fn spec_joins_next(self) -> bool {
        self is Initial || self is Medial
    }

    /// Position of the form in `Form::ALL` order.
    pub fn index(self) -> (r: usize)
        ensures
            r == self.spec_index(),
    {
        match self {
            Form::Isolated => 0,
            Form::Initial => 1,
            Form::Medial => 2,
            Form::Final => 3,
        }
    }

    /// Does this form connect to the preceding letter (on its right)?
    pub fn joins_prev(self) -> (r: bool)
        ensures
            r == self.spec_joins_prev(),
    {
        match self {
            Form::Medial | Form::Final => true,
            _ => false,
        }
    }
}

/// All four forms, in index order.
pub fn all_forms() -> (r: [Form; 4])
    ensures
        forall|i: int| 0 <= i < 4 ==> (#[trigger] r@[i]).spec_index() == i,
{
    [Form::Isolated, Form::Initial, Form::Medial, Form::Final]
}

/// A glyph image: binary occupancy grid plus advance width, all in
/// grid-cell units. Row-major, `GRID_H` rows of `GRID_W` cells; column
/// 0 is the LEFT edge of the canvas and the glyph body is right-aligned
/// (Arabic enters from the right).
#[derive(Clone, Debug)]
pub struct GlyphImage {
    pub cells: Vec<bool>,
    /// Advance width in whole cells (how far the pen moves left).
    pub advance: usize,
}

/// Linear index of cell `(x, y)` on the glyph canvas.
pub open spec fn cell_index(x: int, y: int) -> int {
    y * GRID_W + x
}

/// Is `(x, y)` on the glyph canvas?
pub open spec fn on_canvas(x: int, y: int) -> bool {
    0 <= x < GRID_W && 0 <= y < GRID_H
}

/// Occupancy of cell `(x, y)` in a canvas-sized cell sequence; off-canvas
/// cells read as empty.
pub open spec fn cell_at(cells: Seq<bool>, x: int, y: int) -> bool {
    on_canvas(x, y) && cells[cell_index(x, y)]
}

/// The cells after filling `(x, y)`; off-canvas writes are ignored.
pub open spec fn cells_with(cells: Seq<bool>, x: int, y: int) -> Seq<bool> {
    if on_canvas(x, y) {
        cells.update(cell_index(x, y), true)
    } else {
        cells
    }
}

impl GlyphImage {
    /// The cell vector has exactly one entry per canvas cell.
    pub open spec fn wf(&self) -> bool {
        self.cells@.len() == GRID_W * GRID_H
    }

    /// Is cell (`x`, `y`) filled (off-canvas cells are not)?
    pub open spec fn at(&self, x: int, y: int) -> bool {
        cell_at(self.cells@, x, y)
    }

    /// A blank glyph with no advance.
    pub fn empty() -> (r: Self)
        ensures
            r.wf(),
            r.advance == 0,
            forall|i: int| 0 <= i < r.cells@.len() ==> !#[trigger] r.cells@[i],
    {
        let mut cells: Vec<bool> = Vec::new();
        let mut i: usize = 0;
        while i < GRID_W * GRID_H
            invariant
                i <= GRID_W * GRID_H,
                cells@.len() == i,
                forall|j: int| 0 <= j < i ==> !#[trigger] cells@[j],
            decreases GRID_W * GRID_H - i,
        {
            cells.push(false);
            i = i + 1;
        }
        GlyphImage { cells, advance: 0 }
    }

    /// Is cell (`x`, `y`) filled?
    pub fn get(&self, x: usize, y: usize) -> (r: bool)
        requires
            self.wf(),
        ensures
            r == self.at(x as int, y as int),
    {
        x < GRID_W && y < GRID_H && self.cells[y * GRID_W + x]
    }

    /// Fill cell (`x`, `y`); off-canvas cells are ignored.
    pub fn set(&mut self, x: usize, y: usize)
        requires
            old(self).wf(),
        ensures
            final(self).wf(),
            final(self).advance == old(self).advance,
            final(self).cells@ == cells_with(old(self).cells@, x as int, y as int),
            forall|a: int, b: int|
                on_canvas(a, b) ==> #[trigger] final(self).at(a, b) == (old(self).at(a, b) || (a
                    == x && b == y)),
    {
        if x < GRID_W && y < GRID_H {
            self.cells.set(y * GRID_W + x, true);
        }
        proof {
            assert forall|a: int, b: int| on_canvas(a, b) implies #[trigger] self.at(a, b) == (
            old(self).at(a, b) || (a == x && b == y)) by {
                if on_canvas(x as int, y as int) && cell_index(a, b) == cell_index(x as int, y as int) {
                    assert(a == x && b == y);
                }
            }
        }
    }
}

} // verus!
