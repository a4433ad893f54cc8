use vstd::prelude::*;

use crate::colour::{colour_from_index, colour_index, Colour, PALETTE_SIZE};
use crate::graph::{pos_in_bounds, pos_index, Position};

verus! {

/// A rectangular field of coloured cells, stored row-major.  Input to the
/// component graph builder; never consulted again after construction.
#[derive(Debug)]
pub struct Grid {
    pub number_of_rows: usize,
    pub number_of_columns: usize,
    pub cells: Vec<Colour>,
}

impl Grid {
    /// A grid is well formed when it is non-empty and its cell array covers
    /// exactly its rectangle.
    pub open spec fn wf(self) -> bool {
        &&& 1 <= self.number_of_rows
        &&& 1 <= self.number_of_columns
        &&& self.cells@.len() == self.number_of_rows * self.number_of_columns
    }

    /// The colour of the cell at an in-bounds position.
    pub open spec fn colour_at(self, p: Position) -> Colour {
        self.cells@[pos_index(p, self.number_of_columns as int)]
    }
}

impl PartialEq for Grid {
    /// Two grids are equal when they have the same shape and the same colour
    /// in every cell.
    fn eq(&self, other: &Self) -> bool {
        if self.number_of_rows != other.number_of_rows {
            return false;
        }
        if self.number_of_columns != other.number_of_columns {
            return false;
        }
        if self.cells.len() != other.cells.len() {
            return false;
        }
        let mut i: usize = 0;
        while i < self.cells.len()
            invariant
                i <= self.cells@.len(),
                self.cells@.len() == other.cells@.len(),
                forall|n: int| 0 <= n < i ==> self.cells@[n] == other.cells@[n],
            decreases self.cells@.len() - i,
        {
            if self.cells[i] != other.cells[i] {
                return false;
            }
            i += 1;
        }
        proof {
            assert(self.cells@ =~= other.cells@);
        }
        true
    }
}

impl Eq for Grid {

}

impl vstd::std_specs::cmp::PartialEqSpecImpl for Grid {
    open spec fn obeys_eq_spec() -> bool {
        true
    }

    open spec fn eq_spec(&self, other: &Self) -> bool {
        &&& self.number_of_rows == other.number_of_rows
        &&& self.number_of_columns == other.number_of_columns
        &&& self.cells@ == other.cells@
    }
}

/// Relies on macroquad::rand::gen_range, which for integer arguments scales
/// one pseudo-random draw into [low, high); with low zero and a small high
/// the result is always below high.
#[verifier::external_body]
fn random_below(n: usize) -> (r: usize)
    requires
        1 <= n <= 8,
    ensures
        r < n,
{
    macroquad::rand::gen_range(0, n)
}

impl Grid {
    /// Builds a size x size grid whose cells are drawn at random from the
    /// first `number_of_colours` palette colours (capped at the palette).
    pub fn generate(size: usize, number_of_colours: u32) -> (g: Grid)
        requires
            1 <= size,
            size * size <= usize::MAX,
            1 <= number_of_colours,
        ensures
            g.wf(),
            g.number_of_rows == size,
            g.number_of_columns == size,
            forall|n: int|
                0 <= n < g.cells@.len() ==> colour_index(#[trigger] g.cells@[n])
                    < number_of_colours && colour_index(g.cells@[n]) < 8,
    {
        let palette: usize = if (number_of_colours as usize) < PALETTE_SIZE {
            number_of_colours as usize
        } else {
            PALETTE_SIZE
        };
        let mut cells: Vec<Colour> = Vec::new();
        let mut i: usize = 0;
        while i < size
            invariant
                i <= size,
                size * size <= usize::MAX,
                1 <= palette <= 8,
                palette <= number_of_colours,
                cells@.len() == i * size,
                forall|n: int|
                    0 <= n < cells@.len() ==> colour_index(#[trigger] cells@[n]) < palette,
            decreases size - i,
        {
            let mut j: usize = 0;
            proof {
                assert((i + 1) * size <= size * size) by (nonlinear_arith)
                    requires i < size;
                assert(i * size + size == (i + 1) * size) by (nonlinear_arith);
            }
            while j < size
                invariant
                    j <= size,
                    1 <= palette <= 8,
                    palette <= number_of_colours,
                    cells@.len() == i * size + j,
                    i * size + size <= usize::MAX,
                    forall|n: int|
                        0 <= n < cells@.len() ==> colour_index(#[trigger] cells@[n]) < palette,
                decreases size - j,
            {
                let draw = random_below(palette);
                cells.push(colour_from_index(draw));
                j += 1;
            }
            i += 1;
        }
        proof {
            assert(size * size == cells@.len());
        }
        Grid { number_of_rows: size, number_of_columns: size, cells }
    }
}

} // verus!
