//! Dense row-major grid of small unsigned tile ids with bounds-checked
//! access.

use vstd::prelude::*;

verus! {

/// A grid coordinate: column, then storage row (row 0 is the first map
/// line, visually topmost).
pub type Coord = (usize, usize);

/// A `width` x `height` grid of tile ids, stored row-major: the id of cell
/// `(x, y)` sits at `data[y * width + x]`.
pub struct Grid {
    pub width: usize,
    pub height: usize,
    pub data: Vec<u8>,
}

impl Grid {
    /// The backing vector holds exactly one id per cell.
    pub open spec fn wf(self) -> bool {
        self.data@.len() == self.width * self.height
    }

    /// Id stored for cell `(x, y)`, which must be in bounds.
    pub open spec fn cell(self, x: int, y: int) -> u8 {
        self.data@[y * self.width + x]
    }

    /// A mismatch between the data length and the dimensions can only come
    /// from a loader bug, so construction demands they agree.
    pub fn new(width: usize, height: usize, data: Vec<u8>) -> (g: Grid)
        requires
            data@.len() == width * height,
        ensures
            g == (Grid { width, height, data }),
    {
        Grid { width, height, data }
    }

    pub fn width(&self) -> (w: usize)
        ensures
            w == self.width,
    {
        self.width
    }

    pub fn height(&self) -> (h: usize)
        ensures
            h == self.height,
    {
        self.height
    }

    /// The id at `(x, y)`, or `None` whenever either coordinate is out of
    /// bounds — never a fault, so spatial queries can treat everything
    /// outside the grid as "no tile".
    pub fn get(&self, x: usize, y: usize) -> (r: Option<u8>)
        requires
            self.wf(),
        ensures
            x < self.width && y < self.height ==> r == Some(self.cell(x as int, y as int)),
            !(x < self.width && y < self.height) ==> r is None,
    {
        if x < self.width && y < self.height {
            let n = self.data.len();
            proof {
                assert(y * self.width + x < self.width * self.height) by (nonlinear_arith)
                    requires
                        x < self.width,
                        y < self.height,
                ;
            }
            Some(self.data[y * self.width + x])
        } else {
            None
        }
    }
}

} // verus!
