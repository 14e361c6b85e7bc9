use crate::address::{in_grid, linear_index, MAX_BITS_PER_DIMENSION};
use crate::wrap::wrap64;
use vstd::arithmetic::power2::pow2;
use vstd::prelude::*;

verus! {

/// One processor of the grid: its linear index and its three registers.
#[derive(Clone, Copy, Debug)]
pub struct Processor {
    pub id: u32,
    pub a: i64,
    pub b: i64,
    pub c: i64,
}

/// `p` with registers A and B replaced.
pub open spec fn with_ab(p: Processor, a: i64, b: i64) -> Processor {
    Processor { id: p.id, a: a, b: b, c: p.c }
}

/// `p` with register A replaced.
pub open spec fn with_a(p: Processor, a: i64) -> Processor {
    Processor { id: p.id, a: a, b: p.b, c: p.c }
}

/// `p` with register B replaced.
pub open spec fn with_b(p: Processor, b: i64) -> Processor {
    Processor { id: p.id, a: p.a, b: b, c: p.c }
}

/// `p` with register C replaced.
pub open spec fn with_c(p: Processor, c: i64) -> Processor {
    Processor { id: p.id, a: p.a, b: p.b, c: c }
}

/// The abstract state of a hypercube: `q` bits per axis, the cells in linear
/// order, and the number of steps already executed.
pub ghost struct CubeView {
    pub q: nat,
    pub cells: Seq<Processor>,
    pub step: nat,
}

impl CubeView {
    /// Side of the grid, `2^q`.
    pub open spec fn n(self) -> int {
        pow2(self.q) as int
    }

    pub open spec fn contains(self, x: int, y: int, z: int) -> bool {
        in_grid(self.n(), x, y, z)
    }

    /// The cell at `(x, y, z)`.
    pub open spec fn cell(self, x: int, y: int, z: int) -> Processor {
        self.cells[linear_index(self.q, x, y, z)]
    }

    /// `n^3` cells, each carrying its own linear index as id; at most five steps done.
    pub open spec fn wf(self) -> bool {
        &&& self.q <= MAX_BITS_PER_DIMENSION
        &&& self.cells.len() == self.n() * self.n() * self.n()
        &&& forall|i: int| 0 <= i < self.cells.len() ==> #[trigger] self.cells[i].id == i
        &&& self.step <= 5
    }

    /// Every register of every cell is zero.
    pub open spec fn is_zeroed(self) -> bool {
        forall|i: int|
            0 <= i < self.cells.len() ==> #[trigger] self.cells[i].a == 0 && self.cells[i].b == 0
                && self.cells[i].c == 0
    }

    /// Step 1: A and B of the plane y = 0 are copied up along Y.
    pub open spec fn broadcast_cell(self, x: int, y: int, z: int) -> Processor {
        with_ab(self.cell(x, y, z), self.cell(x, 0, z).a, self.cell(x, 0, z).b)
    }

    /// Step 2: A takes the value at `(y, y, z)`, for every x.
    pub open spec fn select_a_cell(self, x: int, y: int, z: int) -> Processor {
        with_a(self.cell(x, y, z), self.cell(y, y, z).a)
    }

    /// Step 3: B takes the value at `(x, y, y)`, for every z.
    pub open spec fn select_b_cell(self, x: int, y: int, z: int) -> Processor {
        with_b(self.cell(x, y, z), self.cell(x, y, y).b)
    }

    /// Step 4: C becomes the wrapped product of A and B.
    pub open spec fn multiply_cell(self, x: int, y: int, z: int) -> Processor {
        with_c(self.cell(x, y, z), wrap64(self.cell(x, y, z).a * self.cell(x, y, z).b))
    }

    /// Exact sum of C over the column `(x, y'..n, z)`.
    pub open spec fn column_sum_c(self, x: int, z: int, y: int) -> int
        decreases self.n() - y,
    {
        if y < 0 || y >= self.n() {
            0
        } else {
            self.cell(x, y, z).c + self.column_sum_c(x, z, y + 1)
        }
    }

    /// Step 5: C becomes the wrapped sum of C over the cells at and above it along Y.
    pub open spec fn reduce_cell(self, x: int, y: int, z: int) -> Processor {
        with_c(self.cell(x, y, z), wrap64(self.column_sum_c(x, z, y)))
    }

    /// The cell `(x, y, z)` after step `k` (1 to 5) is run on this state.
    pub open spec fn phase_cell(self, k: nat, x: int, y: int, z: int) -> Processor {
        if k == 1 {
            self.broadcast_cell(x, y, z)
        } else if k == 2 {
            self.select_a_cell(x, y, z)
        } else if k == 3 {
            self.select_b_cell(x, y, z)
        } else if k == 4 {
            self.multiply_cell(x, y, z)
        } else {
            self.reduce_cell(x, y, z)
        }
    }

    /// `next` is this state after step `k` (1 to 5), the step counter aside.
    pub open spec fn phase_post(self, k: nat, next: CubeView) -> bool {
        &&& next.q == self.q
        &&& next.cells.len() == self.cells.len()
        &&& forall|x: int, y: int, z: int|
            self.contains(x, y, z) ==> #[trigger] next.cell(x, y, z) == self.phase_cell(k, x, y, z)
    }

    /// `next` is this state after one request to advance: the pending step is
    /// run and counted, or nothing changes once all five are done.
    pub open spec fn advance_post(self, next: CubeView) -> bool {
        if self.step < 5 {
            next.step == self.step + 1 && self.phase_post(self.step + 1, next)
        } else {
            next == self
        }
    }

    /// `next` is this state with the plane y = 0 seeded from the matrices
    /// `ma` and `mb`, given as functions of (row z, column x).
    pub open spec fn seed_post(
        self,
        next: CubeView,
        ma: spec_fn(int, int) -> i64,
        mb: spec_fn(int, int) -> i64,
    ) -> bool {
        &&& next.q == self.q
        &&& next.step == self.step
        &&& next.cells.len() == self.cells.len()
        &&& forall|x: int, y: int, z: int|
            self.contains(x, y, z) ==> #[trigger] next.cell(x, y, z) == if y == 0 {
                with_ab(self.cell(x, y, z), ma(z, x), mb(z, x))
            } else {
                self.cell(x, y, z)
            }
    }

    /// C of the plane y = 0, z outer and x inner.
    pub open spec fn result_plane(self) -> Seq<i64> {
        Seq::new((self.n() * self.n()) as nat, |k: int| self.cell(k % self.n(), 0, k / self.n()).c)
    }
}

} // verus!
