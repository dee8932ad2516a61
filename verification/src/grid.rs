use vstd::prelude::*;

verus! {

/// A rectangular, origin-at-top-left, row-major arrangement of tile values.
/// Dimensions are immutable after construction.
#[derive(Debug)]
pub struct TileGrid {
    width: u32,
    height: u32,
    cells: Vec<u32>,
}

impl TileGrid {
    /// The grid stores exactly one value per cell and its cell count fits the
    /// machine's addressing.
    pub closed spec fn wf(&self) -> bool {
        &&& self.cells@.len() == self.width * self.height
        &&& self.width * self.height <= usize::MAX
    }

    pub closed spec fn w(&self) -> int {
        self.width as int
    }

    pub closed spec fn h(&self) -> int {
        self.height as int
    }

    /// All cells, row-major.
    pub closed spec fn cells(&self) -> Seq<u32> {
        self.cells@
    }

    /// The value stored at column `x`, row `y`.
    pub open spec fn cell(&self, x: int, y: int) -> u32 {
        self.cells()[y * self.w() + x]
    }

    /// What well-formedness gives: one value per cell, within addressing.
    pub proof fn lemma_wf(&self)
        requires
            self.wf(),
        ensures
            self.cells().len() == self.w() * self.h(),
            self.w() * self.h() <= usize::MAX,
    {
    }

    proof fn lemma_index_in_range(&self, x: int, y: int)
        requires
            self.wf(),
            0 <= x < self.w(),
            0 <= y < self.h(),
        ensures
            0 <= y * self.w() + x < self.cells().len(),
            y * self.w() + x <= usize::MAX,
    {
        assert(y * self.w() + x < self.w() * self.h()) by (nonlinear_arith)
            requires
                0 <= x < self.w(),
                0 <= y < self.h(),
        ;
    }

    /// Build a grid from a row-major vector of tile values.
    pub fn from_vec(cells: Vec<u32>, width: u32, height: u32) -> (r: TileGrid)
        requires
            cells@.len() == width * height,
            width * height <= usize::MAX,
        ensures
            r.wf(),
            r.w() == width,
            r.h() == height,
            r.cells() == cells@,
    {
        TileGrid { width, height, cells }
    }

    pub fn width(&self) -> (r: u32)
        ensures
            r == self.w(),
    {
        self.width
    }

    pub fn height(&self) -> (r: u32)
        ensures
            r == self.h(),
    {
        self.height
    }

    /// The number of cells.
    pub fn len(&self) -> (r: usize)
        requires
            self.wf(),
        ensures
            r == self.cells().len(),
    {
        self.cells.len()
    }

    pub fn get(&self, x: u32, y: u32) -> (r: u32)
        requires
            self.wf(),
            x < self.w(),
            y < self.h(),
        ensures
            r == self.cell(x as int, y as int),
    {
        proof {
            self.lemma_index_in_range(x as int, y as int);
        }
        let idx: usize = (y as usize) * (self.width as usize) + (x as usize);
        self.cells[idx]
    }

    /// The value at row-major position `i`.
    pub fn get_linear(&self, i: usize) -> (r: u32)
        requires
            self.wf(),
            i < self.cells().len(),
        ensures
            r == self.cells()[i as int],
    {
        self.cells[i]
    }
}

impl Clone for TileGrid {
    fn clone(&self) -> (r: Self)
        ensures
            r.w() == self.w(),
            r.h() == self.h(),
            r.cells() == self.cells(),
            r.wf() == self.wf(),
    {
        TileGrid { width: self.width, height: self.height, cells: self.cells.clone() }
    }
}

impl PartialEq for TileGrid {
    fn eq(&self, other: &Self) -> (r: bool) {
        if self.width != other.width || self.height != other.height {
            return false;
        }
        if self.cells.len() != other.cells.len() {
            return false;
        }
        let mut i: usize = 0;
        while i < self.cells.len()
            invariant
                0 <= i <= self.cells@.len(),
                self.cells@.len() == other.cells@.len(),
                forall|j: int| 0 <= j < i ==> self.cells@[j] == other.cells@[j],
            decreases self.cells@.len() - i,
        {
            if self.cells[i] != other.cells[i] {
                return false;
            }
            i += 1;
        }
        proof {
            assert(self.cells@ =~= other.cells@);
        }
        true
    }
}

impl vstd::std_specs::cmp::PartialEqSpecImpl for TileGrid {
    open spec fn obeys_eq_spec() -> bool {
        true
    }

    open spec fn eq_spec(&self, other: &Self) -> bool {
        self.w() == other.w() && self.h() == other.h() && self.cells() == other.cells()
    }
}

} // verus!
