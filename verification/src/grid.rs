//! The puzzle grid: a 9x9 matrix of cells stored row-major, each cell
//! holding a placed digit 1-9 or the sentinel 0 meaning "empty".

use vstd::prelude::*;

verus! {

/// The digit at row `r`, column `c` of the row-major grid sequence `g`.
pub open spec fn at(g: Seq<u8>, r: int, c: int) -> u8 {
    g[r * 9 + c]
}

/// A grid sequence is well formed when it has exactly 81 cells and no cell
/// holds a value outside `[0, 9]`.
pub open spec fn grid_wf(g: Seq<u8>) -> bool {
    &&& g.len() == 81
    &&& forall|k: int| 0 <= k < 81 ==> #[trigger] g[k] <= 9
}

/// The flat sequence a nine-rows-of-nine matrix denotes.
pub open spec fn rows_seq(rows: Seq<[u8; 9]>) -> Seq<u8> {
    Seq::new(81, |k: int| rows[k / 9]@[k % 9])
}

/// A 9x9 puzzle grid.  The cells are kept row-major; every value is a digit
/// 1-9 or the sentinel 0 for an empty cell.
#[derive(Debug)]
pub struct Grid {
    cells: Vec<u8>,
}

impl View for Grid {
    type V = Seq<u8>;

    closed spec fn view(&self) -> Seq<u8> {
        self.cells@
    }
}

impl Grid {
    /// The grid invariant: 81 cells, each in `[0, 9]`.
    pub open spec fn wf(&self) -> bool {
        grid_wf(self@)
    }

    /// Builds a grid from nine rows of nine values, rejecting any matrix
    /// that holds a value above 9.
    pub fn from_rows(rows: &[[u8; 9]; 9]) -> (res: Option<Grid>)
        ensures
            res is Some <==> (forall|r: int, c: int|
                0 <= r < 9 && 0 <= c < 9 ==> #[trigger] rows@[r]@[c] <= 9),
            res matches Some(g) ==> g.wf() && g@ == rows_seq(rows@),
    {
        let mut cells: Vec<u8> = Vec::new();
        let mut k: usize = 0;
        while k < 81
            invariant
                k <= 81,
                cells@.len() == k,
                forall|j: int| 0 <= j < k ==> #[trigger] cells@[j] == rows_seq(rows@)[j],
                forall|j: int| 0 <= j < k ==> #[trigger] cells@[j] <= 9,
            decreases 81 - k,
        {
            let v = rows[k / 9][k % 9];
            if v > 9 {
                assert(rows@[k as int / 9]@[k as int % 9] > 9);
                return None;
            }
            cells.push(v);
            k = k + 1;
        }
        let g = Grid { cells };
        assert(g@ =~= rows_seq(rows@));
        assert forall|r: int, c: int| 0 <= r < 9 && 0 <= c < 9 implies #[trigger] rows@[r]@[c]
            <= 9 by {
            assert(rows_seq(rows@)[r * 9 + c] == rows@[(r * 9 + c) / 9]@[(r * 9 + c) % 9]);
            assert((r * 9 + c) / 9 == r && (r * 9 + c) % 9 == c) by (nonlinear_arith)
                requires 0 <= r < 9 && 0 <= c < 9;
        }
        Some(g)
    }

    /// Reads the digit at `(r, c)`.
    pub fn get(&self, r: usize, c: usize) -> (v: u8)
        requires
            self.wf(),
            r < 9,
            c < 9,
        ensures
            v == at(self@, r as int, c as int),
            v <= 9,
    {
        self.cells[r * 9 + c]
    }

    /// Writes the digit `v` at `(r, c)`.
    pub fn set(&mut self, r: usize, c: usize, v: u8)
        requires
            old(self).wf(),
            r < 9,
            c < 9,
            v <= 9,
        ensures
            final(self)@ == old(self)@.update(r * 9 + c, v),
            final(self).wf(),
    {
        self.cells[r * 9 + c] = v;
    }

    /// Returns a value copy of the grid.
    pub fn duplicate(&self) -> (g: Grid)
        ensures
            g@ == self@,
    {
        let mut cells: Vec<u8> = Vec::new();
        let mut k: usize = 0;
        let n = self.cells.len();
        while k < n
            invariant
                k <= n,
                n == self.cells@.len(),
                cells@.len() == k,
                forall|j: int| 0 <= j < k ==> #[trigger] cells@[j] == self.cells@[j],
            decreases n - k,
        {
            cells.push(self.cells[k]);
            k = k + 1;
        }
        let g = Grid { cells };
        assert(g@ =~= self@);
        g
    }
}

impl PartialEq for Grid {
    /// Two grids are equal exactly when every cell agrees.
    fn eq(&self, other: &Grid) -> (r: bool) {
        if self.cells.len() != other.cells.len() {
            proof {
                assert(self@ != other@);
            }
            return false;
        }
        let n = self.cells.len();
        let mut k: usize = 0;
        while k < n
            invariant
                k <= n,
                n == self.cells@.len(),
                n == other.cells@.len(),
                forall|j: int| 0 <= j < k ==> #[trigger] self.cells@[j] == other.cells@[j],
            decreases n - k,
        {
            if self.cells[k] != other.cells[k] {
                return false;
            }
            k = k + 1;
        }
        proof {
            assert(self@ =~= other@);
        }
        true
    }
}

impl vstd::std_specs::cmp::PartialEqSpecImpl for Grid {
    open spec fn obeys_eq_spec() -> bool {
        true
    }

    open spec fn eq_spec(&self, other: &Grid) -> bool {
        self@ == other@
    }
}

} // verus!
