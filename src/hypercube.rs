use crate::address::{
    encode, is_power_of_two, lemma_linear_index_bounds, lemma_linear_index_injective,
    lemma_side_bound, linear_index, MAX_BITS_PER_DIMENSION, MAX_SIDE,
};
use crate::grid::{CubeView, Processor};
use crate::wrap::{lemma_wrap_absorbs, lemma_wrap_in_range, lemma_wrapping_add_is_wrap};
use vstd::arithmetic::power2::{lemma2_to64, lemma_pow2_strictly_increases, pow2};
use vstd::prelude::*;

verus! {

/// Why a hypercube cannot be built or seeded.
#[derive(Clone, Copy, Debug, PartialEq, Eq, Structural)]
pub enum HypercubeError {
    /// The side is zero or not a power of two.
    InvalidSize,
    /// The side exceeds `MAX_SIDE`: the linear indices would not fit in `u32`.
    TooLarge,
    /// A matrix holds fewer than `n * n` entries.
    ShortInput,
}

/// An `n x n x n` grid of processors (`n = 2^q`) that multiplies two `n x n`
/// matrices in five observable steps.
///
/// Axes: X to the right, Y up, Z into the depth.
pub struct Hypercube {
    processor_list: Vec<Processor>,
    number_bits_per_dimension: u32,
    number_processor_per_dimension: u32,
    number_bits_total: u32,
    number_processors_total: u32,
    current_step: usize,
}

impl View for Hypercube {
    type V = CubeView;

    closed spec fn view(&self) -> CubeView {
        CubeView {
            q: self.number_bits_per_dimension as nat,
            cells: self.processor_list@,
            step: self.current_step as nat,
        }
    }
}

impl Hypercube {
    /// The cached sizes agree with the number of bits per axis.
    pub closed spec fn sizes_agree(&self) -> bool {
        let q = self.number_bits_per_dimension as nat;
        &&& self.number_processor_per_dimension as int == pow2(q)
        &&& self.number_bits_total as int == 3 * q
        &&& self.number_processors_total as int == pow2(q) * pow2(q) * pow2(q)
    }

    pub open spec fn wf(&self) -> bool {
        self@.wf() && self.sizes_agree()
    }

    /// Builds the grid of side `matrix_size`, every register zero, no step done.
    pub fn new(matrix_size: usize) -> (r: Result<Hypercube, HypercubeError>)
        ensures
            !is_power_of_two(matrix_size as int) ==> r == Err::<Hypercube, HypercubeError>(
                HypercubeError::InvalidSize,
            ),
            matrix_size > MAX_SIDE && is_power_of_two(matrix_size as int) ==> r == Err::<
                Hypercube,
                HypercubeError,
            >(HypercubeError::TooLarge),
            matrix_size <= MAX_SIDE && is_power_of_two(matrix_size as int) ==> r is Ok,
            r matches Ok(h) ==> {
                &&& h.wf()
                &&& h@.n() == matrix_size
                &&& h@.step == 0
                &&& h@.is_zeroed()
            },
    {
        let size: u128 = matrix_size as u128;
        let mut q: u32 = 0;
        let mut power: u128 = 1;
        proof {
            lemma2_to64();
        }
        while power < size
            invariant
                power as int == pow2(q as nat),
                power >= 1,
                q <= 64,
                size == matrix_size,
                forall|j: nat| j < q ==> pow2(j) < matrix_size,
            decreases 64 - q,
        {
            proof {
                lemma2_to64();
                if q > 64 {
                    lemma_pow2_strictly_increases(64, q as nat);
                }
                vstd::arithmetic::power2::lemma_pow2_unfold((q + 1) as nat);
            }
            power = power * 2;
            q = q + 1;
        }
        if power != size {
            proof {
                assert forall|j: nat| pow2(j) != matrix_size by {
                    if j > q {
                        lemma_pow2_strictly_increases(q as nat, j);
                    }
                }
            }
            return Err(HypercubeError::InvalidSize);
        }
        if q > MAX_BITS_PER_DIMENSION {
            proof {
                lemma_pow2_strictly_increases(MAX_BITS_PER_DIMENSION as nat, q as nat);
            }
            return Err(HypercubeError::TooLarge);
        }
        let side: usize = matrix_size;
        proof {
            lemma_side_bound(q as nat);
            if matrix_size > MAX_SIDE {
                assert(pow2(q as nat) == matrix_size);
            }
            assert(side * side <= 1024 * 1024 && side * side * side <= 1024 * 1024 * 1024)
                by (nonlinear_arith)
                requires
                    side <= 1024,
            ;
        }
        let n: u32 = side as u32;
        let total: u32 = n * n * n;
        let mut processor_list: Vec<Processor> = Vec::new();
        let mut i: u32 = 0;
        while i < total
            invariant
                i <= total,
                processor_list@.len() == i,
                forall|k: int|
                    0 <= k < i ==> #[trigger] processor_list@[k] == (Processor {
                        id: k as u32,
                        a: 0,
                        b: 0,
                        c: 0,
                    }),
            decreases total - i,
        {
            processor_list.push(Processor { id: i, a: 0, b: 0, c: 0 });
            i = i + 1;
        }
        Ok(
            Hypercube {
                processor_list,
                number_bits_per_dimension: q,
                number_processor_per_dimension: n,
                number_bits_total: 3 * q,
                number_processors_total: total,
                current_step: 0,
            },
        )
    }

    /// Bits per axis, `q`.
    pub fn number_bits_per_dimension(&self) -> (r: u32)
        requires
            self.wf(),
        ensures
            r == self@.q,
    {
        self.number_bits_per_dimension
    }

    /// Side of the grid, `n = 2^q`.
    pub fn number_processor_per_dimension(&self) -> (r: u32)
        requires
            self.wf(),
        ensures
            r == self@.n(),
            1 <= r <= MAX_SIDE,
    {
        proof {
            lemma_side_bound(self@.q);
        }
        self.number_processor_per_dimension
    }

    /// Bits of a linear index, `3q`.
    pub fn number_bits_total(&self) -> (r: u32)
        requires
            self.wf(),
        ensures
            r == 3 * self@.q,
    {
        self.number_bits_total
    }

    /// Number of processors, `n^3`.
    pub fn number_processors_total(&self) -> (r: u32)
        requires
            self.wf(),
        ensures
            r == self@.cells.len(),
    {
        self.number_processors_total
    }

    /// Number of steps already executed, from 0 to 5.
    pub fn current_step(&self) -> (r: usize)
        requires
            self.wf(),
        ensures
            r == self@.step,
    {
        self.current_step
    }

    /// The processor at `(x, y, z)`.
    pub fn get_processor(&self, x: u32, y: u32, z: u32) -> (r: &Processor)
        requires
            self.wf(),
            self@.contains(x as int, y as int, z as int),
        ensures
            *r == self@.cell(x as int, y as int, z as int),
    {
        let proc_id = encode(self.number_bits_per_dimension, x, y, z);
        &self.processor_list[proc_id as usize]
    }

    /// A copy of the processor at `(x, y, z)`.
    pub fn get_processor_copy(&self, x: u32, y: u32, z: u32) -> (r: Processor)
        requires
            self.wf(),
            self@.contains(x as int, y as int, z as int),
        ensures
            r == self@.cell(x as int, y as int, z as int),
    {
        *self.get_processor(x, y, z)
    }

    /// Replaces the processor at `(x, y, z)`, which keeps its id.
    fn set_processor(&mut self, x: u32, y: u32, z: u32, p: Processor)
        requires
            old(self).wf(),
            old(self)@.contains(x as int, y as int, z as int),
            p.id == old(self)@.cell(x as int, y as int, z as int).id,
        ensures
            final(self).wf(),
            final(self)@.q == old(self)@.q,
            final(self)@.step == old(self)@.step,
            final(self)@.cells.len() == old(self)@.cells.len(),
            forall|x2: int, y2: int, z2: int|
                old(self)@.contains(x2, y2, z2) ==> #[trigger] final(self)@.cell(x2, y2, z2) == if x2
                    == x && y2 == y && z2 == z {
                    p
                } else {
                    old(self)@.cell(x2, y2, z2)
                },
    {
        let proc_id = encode(self.number_bits_per_dimension, x, y, z);
        self.processor_list.set(proc_id as usize, p);
        proof {
            let g = old(self)@;
            assert forall|x2: int, y2: int, z2: int| g.contains(x2, y2, z2) implies #[trigger] self@.cell(
                x2,
                y2,
                z2,
            ) == if x2 == x && y2 == y && z2 == z {
                p
            } else {
                g.cell(x2, y2, z2)
            } by {
                lemma_linear_index_bounds(g.q, x2, y2, z2);
                if linear_index(g.q, x2, y2, z2) == proc_id as int {
                    lemma_linear_index_injective(g.q, x2, y2, z2, x as int, y as int, z as int);
                }
            }
        }
    }

    /// All processors, in linear order.
    pub fn get_state(&self) -> (r: Vec<Processor>)
        requires
            self.wf(),
        ensures
            r@ == self@.cells,
    {
        let mut r: Vec<Processor> = Vec::new();
        let mut i: usize = 0;
        while i < self.processor_list.len()
            invariant
                i <= self.processor_list@.len(),
                r@ == self.processor_list@.subrange(0, i as int),
            decreases self.processor_list@.len() - i,
        {
            r.push(self.processor_list[i]);
            i = i + 1;
            proof {
                assert(r@ =~= self.processor_list@.subrange(0, i as int));
            }
        }
        proof {
            assert(r@ =~= self.processor_list@);
        }
        r
    }
}

/// `m` has at least `n` rows, and each of its first `n` rows at least `n` entries.
pub open spec fn covers(m: Seq<Vec<i64>>, n: int) -> bool {
    m.len() >= n && forall|z: int| 0 <= z < n ==> #[trigger] m[z]@.len() >= n
}

/// A step's effect does not depend on the step counter.
proof fn lemma_phase_post_keeps(g: CubeView, k: nat, mid: CubeView, next: CubeView)
    requires
        g.phase_post(k, mid),
        next.q == mid.q,
        next.cells == mid.cells,
    ensures
        g.phase_post(k, next),
{
    assert forall|x: int, y: int, z: int| g.contains(x, y, z) implies #[trigger] next.cell(x, y, z)
        == g.phase_cell(k, x, y, z) by {
        assert(next.cell(x, y, z) == mid.cell(x, y, z));
    }
}

/// `(o1, m1, i1)` comes strictly before `(o2, m2, i2)` in lexicographic order.
spec fn before(o1: int, m1: int, i1: int, o2: int, m2: int, i2: int) -> bool {
    o1 < o2 || (o1 == o2 && (m1 < m2 || (m1 == m2 && i1 < i2)))
}

impl Hypercube {
    /// Step 1: for y = 1..n, copies A and B of `(x, y - 1, z)` into `(x, y, z)`.
    fn step_1(&mut self)
        requires
            old(self).wf(),
        ensures
            final(self).wf(),
            final(self)@.step == old(self)@.step,
            old(self)@.phase_post(1, final(self)@),
    {
        let ghost g = self@;
        let n = self.number_processor_per_dimension();
        assert forall|x2: int, y2: int, z2: int| g.contains(x2, y2, z2) && y2 == 0 implies #[trigger] g.broadcast_cell(x2, y2, z2) == g.cell(x2, y2, z2) by {}
        let mut y: u32 = 1;
        while y < n
            invariant
                self.wf(),
                g.wf(),
                self@.q == g.q,
                self@.step == g.step,
                self@.cells.len() == g.cells.len(),
                n == g.n(),
                1 <= y <= n,
                forall|x2: int, y2: int, z2: int|
                    g.contains(x2, y2, z2) ==> #[trigger] self@.cell(x2, y2, z2) == if before(
                        y2,
                        z2,
                        x2,
                        y as int,
                        0,
                        0,
                    ) {
                        g.broadcast_cell(x2, y2, z2)
                    } else {
                        g.cell(x2, y2, z2)
                    },
            decreases n - y,
        {
            let mut z: u32 = 0;
            while z < n
                invariant
                    self.wf(),
                    g.wf(),
                    self@.q == g.q,
                    self@.step == g.step,
                    self@.cells.len() == g.cells.len(),
                    n == g.n(),
                    1 <= y < n,
                    z <= n,
                    forall|x2: int, y2: int, z2: int|
                        g.contains(x2, y2, z2) ==> #[trigger] self@.cell(x2, y2, z2) == if before(
                            y2,
                            z2,
                            x2,
                            y as int,
                            z as int,
                            0,
                        ) {
                            g.broadcast_cell(x2, y2, z2)
                        } else {
                            g.cell(x2, y2, z2)
                        },
                decreases n - z,
            {
                let mut x: u32 = 0;
                while x < n
                    invariant
                        self.wf(),
                        g.wf(),
                        self@.q == g.q,
                        self@.step == g.step,
                        self@.cells.len() == g.cells.len(),
                        n == g.n(),
                        1 <= y < n,
                        z < n,
                        x <= n,
                        forall|x2: int, y2: int, z2: int|
                            g.contains(x2, y2, z2) ==> #[trigger] self@.cell(x2, y2, z2) == if before(
                                y2,
                                z2,
                                x2,
                                y as int,
                                z as int,
                                x as int,
                            ) {
                                g.broadcast_cell(x2, y2, z2)
                            } else {
                                g.cell(x2, y2, z2)
                            },
                    decreases n - x,
                {
                    let below = self.get_processor(x, y - 1, z);
                    let a_value = below.a;
                    let b_value = below.b;
                    let current = self.get_processor_copy(x, y, z);
                    self.set_processor(
                        x,
                        y,
                        z,
                        Processor { id: current.id, a: a_value, b: b_value, c: current.c },
                    );
                    x = x + 1;
                }
                z = z + 1;
            }
            y = y + 1;
        }
    }

    /// Step 2: for every x, A of `(x, y, z)` takes A of `(y, y, z)`.
    fn step_2(&mut self)
        requires
            old(self).wf(),
        ensures
            final(self).wf(),
            final(self)@.step == old(self)@.step,
            old(self)@.phase_post(2, final(self)@),
    {
        let ghost g = self@;
        let n = self.number_processor_per_dimension();
        let mut x: u32 = 0;
        while x < n
            invariant
                self.wf(),
                g.wf(),
                self@.q == g.q,
                self@.step == g.step,
                self@.cells.len() == g.cells.len(),
                n == g.n(),
                x <= n,
                forall|x2: int, y2: int, z2: int|
                    g.contains(x2, y2, z2) ==> #[trigger] self@.cell(x2, y2, z2) == if before(x2, y2, z2, x as int, 0, 0) {
                        g.select_a_cell(x2, y2, z2)
                    } else {
                        g.cell(x2, y2, z2)
                    },
            decreases n - x,
        {
            let mut y: u32 = 0;
            while y < n
                invariant
                    self.wf(),
                    g.wf(),
                    self@.q == g.q,
                    self@.step == g.step,
                    self@.cells.len() == g.cells.len(),
                    n == g.n(),
                    x < n,
                    y <= n,
                    forall|x2: int, y2: int, z2: int|
                        g.contains(x2, y2, z2) ==> #[trigger] self@.cell(x2, y2, z2) == if before(x2, y2, z2, x as int, y as int, 0) {
                            g.select_a_cell(x2, y2, z2)
                        } else {
                            g.cell(x2, y2, z2)
                        },
                decreases n - y,
            {
                let mut z: u32 = 0;
                while z < n
                    invariant
                        self.wf(),
                        g.wf(),
                        self@.q == g.q,
                        self@.step == g.step,
                        self@.cells.len() == g.cells.len(),
                        n == g.n(),
                        x < n,
                        y < n,
                        z <= n,
                        forall|x2: int, y2: int, z2: int|
                            g.contains(x2, y2, z2) ==> #[trigger] self@.cell(x2, y2, z2) == if before(x2, y2, z2, x as int, y as int, z as int) {
                                g.select_a_cell(x2, y2, z2)
                            } else {
                                g.cell(x2, y2, z2)
                            },
                    decreases n - z,
                {
                    let a_value = self.get_processor(y, y, z).a;
                    let current = self.get_processor_copy(x, y, z);
                    self.set_processor(x, y, z, Processor { id: current.id, a: a_value, b: current.b, c: current.c });
                    z = z + 1;
                }
                y = y + 1;
            }
            x = x + 1;
        }
    }

    /// Step 3: for every z, B of `(x, y, z)` takes B of `(x, y, y)`.
    fn step_3(&mut self)
        requires
            old(self).wf(),
        ensures
            final(self).wf(),
            final(self)@.step == old(self)@.step,
            old(self)@.phase_post(3, final(self)@),
    {
        let ghost g = self@;
        let n = self.number_processor_per_dimension();
        let mut z: u32 = 0;
        while z < n
            invariant
                self.wf(),
                g.wf(),
                self@.q == g.q,
                self@.step == g.step,
                self@.cells.len() == g.cells.len(),
                n == g.n(),
                z <= n,
                forall|x2: int, y2: int, z2: int|
                    g.contains(x2, y2, z2) ==> #[trigger] self@.cell(x2, y2, z2) == if before(z2, y2, x2, z as int, 0, 0) {
                        g.select_b_cell(x2, y2, z2)
                    } else {
                        g.cell(x2, y2, z2)
                    },
            decreases n - z,
        {
            let mut y: u32 = 0;
            while y < n
                invariant
                    self.wf(),
                    g.wf(),
                    self@.q == g.q,
                    self@.step == g.step,
                    self@.cells.len() == g.cells.len(),
                    n == g.n(),
                    z < n,
                    y <= n,
                    forall|x2: int, y2: int, z2: int|
                        g.contains(x2, y2, z2) ==> #[trigger] self@.cell(x2, y2, z2) == if before(z2, y2, x2, z as int, y as int, 0) {
                            g.select_b_cell(x2, y2, z2)
                        } else {
                            g.cell(x2, y2, z2)
                        },
                decreases n - y,
            {
                let mut x: u32 = 0;
                while x < n
                    invariant
                        self.wf(),
                        g.wf(),
                        self@.q == g.q,
                        self@.step == g.step,
                        self@.cells.len() == g.cells.len(),
                        n == g.n(),
                        z < n,
                        y < n,
                        x <= n,
                        forall|x2: int, y2: int, z2: int|
                            g.contains(x2, y2, z2) ==> #[trigger] self@.cell(x2, y2, z2) == if before(z2, y2, x2, z as int, y as int, x as int) {
                                g.select_b_cell(x2, y2, z2)
                            } else {
                                g.cell(x2, y2, z2)
                            },
                    decreases n - x,
                {
                    let b_value = self.get_processor(x, y, y).b;
                    let current = self.get_processor_copy(x, y, z);
                    self.set_processor(x, y, z, Processor { id: current.id, a: current.a, b: b_value, c: current.c });
                    x = x + 1;
                }
                y = y + 1;
            }
            z = z + 1;
        }
    }

    /// Step 4: C of every processor becomes A * B, wrapping.
    fn step_4(&mut self)
        requires
            old(self).wf(),
        ensures
            final(self).wf(),
            final(self)@.step == old(self)@.step,
            old(self)@.phase_post(4, final(self)@),
    {
        let ghost g = self@;
        let n = self.number_processor_per_dimension();
        let mut x: u32 = 0;
        while x < n
            invariant
                self.wf(),
                g.wf(),
                self@.q == g.q,
                self@.step == g.step,
                self@.cells.len() == g.cells.len(),
                n == g.n(),
                x <= n,
                forall|x2: int, y2: int, z2: int|
                    g.contains(x2, y2, z2) ==> #[trigger] self@.cell(x2, y2, z2) == if before(x2, y2, z2, x as int, 0, 0) {
                        g.multiply_cell(x2, y2, z2)
                    } else {
                        g.cell(x2, y2, z2)
                    },
            decreases n - x,
        {
            let mut y: u32 = 0;
            while y < n
                invariant
                    self.wf(),
                    g.wf(),
                    self@.q == g.q,
                    self@.step == g.step,
                    self@.cells.len() == g.cells.len(),
                    n == g.n(),
                    x < n,
                    y <= n,
                    forall|x2: int, y2: int, z2: int|
                        g.contains(x2, y2, z2) ==> #[trigger] self@.cell(x2, y2, z2) == if before(x2, y2, z2, x as int, y as int, 0) {
                            g.multiply_cell(x2, y2, z2)
                        } else {
                            g.cell(x2, y2, z2)
                        },
                decreases n - y,
            {
                let mut z: u32 = 0;
                while z < n
                    invariant
                        self.wf(),
                        g.wf(),
                        self@.q == g.q,
                        self@.step == g.step,
                        self@.cells.len() == g.cells.len(),
                        n == g.n(),
                        x < n,
                        y < n,
                        z <= n,
                        forall|x2: int, y2: int, z2: int|
                            g.contains(x2, y2, z2) ==> #[trigger] self@.cell(x2, y2, z2) == if before(x2, y2, z2, x as int, y as int, z as int) {
                                g.multiply_cell(x2, y2, z2)
                            } else {
                                g.cell(x2, y2, z2)
                            },
                    decreases n - z,
                {
                    let current = self.get_processor_copy(x, y, z);
                    let product = current.a.wrapping_mul(current.b);
                    self.set_processor(x, y, z, Processor { id: current.id, a: current.a, b: current.b, c: product });
                    z = z + 1;
                }
                y = y + 1;
            }
            x = x + 1;
        }
    }

    /// Step 5: for y = n - 2 down to 0, adds C of `(x, y + 1, z)` into `(x, y, z)`, wrapping.
    fn step_5(&mut self)
        requires
            old(self).wf(),
        ensures
            final(self).wf(),
            final(self)@.step == old(self)@.step,
            old(self)@.phase_post(5, final(self)@),
    {
        let ghost g = self@;
        let n = self.number_processor_per_dimension();
        proof {
            assert forall|x2: int, y2: int, z2: int|
                g.contains(x2, y2, z2) && y2 == n - 1 implies #[trigger] g.reduce_cell(x2, y2, z2)
                == g.cell(x2, y2, z2) by {
                assert(g.column_sum_c(x2, z2, y2 + 1) == 0);
                lemma_wrap_in_range(g.cell(x2, y2, z2).c as int);
            }
        }
        let mut k: u32 = n - 1;
        while k > 0
            invariant
                self.wf(),
                g.wf(),
                self@.q == g.q,
                self@.step == g.step,
                self@.cells.len() == g.cells.len(),
                n == g.n(),
                k < n,
                forall|x2: int, y2: int, z2: int|
                    g.contains(x2, y2, z2) ==> #[trigger] self@.cell(x2, y2, z2) == if y2 >= k {
                        g.reduce_cell(x2, y2, z2)
                    } else {
                        g.cell(x2, y2, z2)
                    },
            decreases k,
        {
            let y: u32 = k - 1;
            let mut z: u32 = 0;
            while z < n
                invariant
                    self.wf(),
                    g.wf(),
                    self@.q == g.q,
                    self@.step == g.step,
                    self@.cells.len() == g.cells.len(),
                    n == g.n(),
                    0 < k < n,
                    y == k - 1,
                    z <= n,
                    forall|x2: int, y2: int, z2: int|
                        g.contains(x2, y2, z2) ==> #[trigger] self@.cell(x2, y2, z2) == if y2 >= k || (y2 == y && z2 < z) {
                            g.reduce_cell(x2, y2, z2)
                        } else {
                            g.cell(x2, y2, z2)
                        },
                decreases n - z,
            {
                let mut x: u32 = 0;
                while x < n
                    invariant
                        self.wf(),
                        g.wf(),
                        self@.q == g.q,
                        self@.step == g.step,
                        self@.cells.len() == g.cells.len(),
                        n == g.n(),
                        0 < k < n,
                        y == k - 1,
                        z < n,
                        x <= n,
                        forall|x2: int, y2: int, z2: int|
                            g.contains(x2, y2, z2) ==> #[trigger] self@.cell(x2, y2, z2) == if y2 >= k || (y2 == y && (z2 < z || (z2 == z && x2 < x))) {
                                g.reduce_cell(x2, y2, z2)
                            } else {
                                g.cell(x2, y2, z2)
                            },
                    decreases n - x,
                {
                    let up_value = self.get_processor(x, y + 1, z).c;
                    let current = self.get_processor_copy(x, y, z);
                    let sum = current.c.wrapping_add(up_value);
                    proof {
                        lemma_wrapping_add_is_wrap(current.c, up_value);
                        lemma_wrap_absorbs(current.c as int, g.column_sum_c(x as int, z as int, y + 1));
                    }
                    self.set_processor(
                        x,
                        y,
                        z,
                        Processor { id: current.id, a: current.a, b: current.b, c: sum },
                    );
                    x = x + 1;
                }
                z = z + 1;
            }
            k = k - 1;
        }
    }

    /// Runs the pending step and counts it; returns false, changing nothing,
    /// once all five steps are done.
    pub fn next_step(&mut self) -> (r: bool)
        requires
            old(self).wf(),
        ensures
            final(self).wf(),
            r == (old(self)@.step < 5),
            old(self)@.advance_post(final(self)@),
    {
        match self.current_step {
            0 => {
                self.step_1();
                let ghost mid = self@;
                self.current_step = 1;
                proof {
                    lemma_phase_post_keeps(old(self)@, 1, mid, self@);
                }
                true
            },
            1 => {
                self.step_2();
                let ghost mid = self@;
                self.current_step = 2;
                proof {
                    lemma_phase_post_keeps(old(self)@, 2, mid, self@);
                }
                true
            },
            2 => {
                self.step_3();
                let ghost mid = self@;
                self.current_step = 3;
                proof {
                    lemma_phase_post_keeps(old(self)@, 3, mid, self@);
                }
                true
            },
            3 => {
                self.step_4();
                let ghost mid = self@;
                self.current_step = 4;
                proof {
                    lemma_phase_post_keeps(old(self)@, 4, mid, self@);
                }
                true
            },
            4 => {
                self.step_5();
                let ghost mid = self@;
                self.current_step = 5;
                proof {
                    lemma_phase_post_keeps(old(self)@, 5, mid, self@);
                }
                true
            },
            _ => false,
        }
    }

    /// Seeds the plane y = 0 from two `n x n` matrices in row-major order:
    /// `(x, 0, z)` gets A = `matrix_a[z * n + x]` and B = `matrix_b[z * n + x]`.
    /// Fails, changing nothing, when a matrix holds fewer than `n * n` entries.
    pub fn init(&mut self, matrix_a: &[i64], matrix_b: &[i64]) -> (r: Result<(), HypercubeError>)
        requires
            old(self).wf(),
        ensures
            final(self).wf(),
            ({
                let g = old(self)@;
                let n = g.n();
                if matrix_a@.len() < n * n || matrix_b@.len() < n * n {
                    r == Err::<(), HypercubeError>(HypercubeError::ShortInput) && final(self)@ == g
                } else {
                    r == Ok::<(), HypercubeError>(()) && g.seed_post(
                        final(self)@,
                        |z: int, x: int| matrix_a@[z * n + x],
                        |z: int, x: int| matrix_b@[z * n + x],
                    )
                }
            }),
    {
        let ghost g = self@;
        let n = self.number_processor_per_dimension();
        proof {
            assert(n * n <= 1024 * 1024) by (nonlinear_arith)
                requires
                    n <= 1024,
            ;
        }
        let nn: usize = (n as usize) * (n as usize);
        if matrix_a.len() < nn || matrix_b.len() < nn {
            return Err(HypercubeError::ShortInput);
        }
        let mut z: u32 = 0;
        while z < n
            invariant
                self.wf(),
                g.wf(),
                self@.q == g.q,
                self@.step == g.step,
                self@.cells.len() == g.cells.len(),
                n == g.n(),
                nn == n * n,
                matrix_a@.len() >= nn,
                matrix_b@.len() >= nn,
                z <= n,
                forall|x2: int, y2: int, z2: int|
                    g.contains(x2, y2, z2) ==> #[trigger] self@.cell(x2, y2, z2) == if y2 == 0
                        && z2 < z {
                        crate::grid::with_ab(
                            g.cell(x2, y2, z2),
                            matrix_a@[z2 * n + x2],
                            matrix_b@[z2 * n + x2],
                        )
                    } else {
                        g.cell(x2, y2, z2)
                    },
            decreases n - z,
        {
            let mut x: u32 = 0;
            while x < n
                invariant
                    self.wf(),
                    g.wf(),
                    self@.q == g.q,
                    self@.step == g.step,
                    self@.cells.len() == g.cells.len(),
                    n == g.n(),
                    nn == n * n,
                    matrix_a@.len() >= nn,
                    matrix_b@.len() >= nn,
                    z < n,
                    x <= n,
                    forall|x2: int, y2: int, z2: int|
                        g.contains(x2, y2, z2) ==> #[trigger] self@.cell(x2, y2, z2) == if y2 == 0
                            && (z2 < z || (z2 == z && x2 < x)) {
                            crate::grid::with_ab(
                                g.cell(x2, y2, z2),
                                matrix_a@[z2 * n + x2],
                                matrix_b@[z2 * n + x2],
                            )
                        } else {
                            g.cell(x2, y2, z2)
                        },
                decreases n - x,
            {
                proof {
                    assert((z as int) * (n as int) + (x as int) < (n as int) * (n as int))
                        by (nonlinear_arith)
                        requires
                            z < n,
                            x < n,
                    ;
                }
                let offset: usize = (z as usize) * (n as usize) + (x as usize);
                let current = self.get_processor_copy(x, 0, z);
                self.set_processor(
                    x,
                    0,
                    z,
                    Processor {
                        id: current.id,
                        a: matrix_a[offset],
                        b: matrix_b[offset],
                        c: current.c,
                    },
                );
                x = x + 1;
            }
            z = z + 1;
        }
        Ok(())
    }

    /// C of the plane y = 0, z outer and x inner: the product once all steps are done.
    pub fn get_result(&self) -> (r: Vec<i64>)
        requires
            self.wf(),
        ensures
            r@ == self@.result_plane(),
    {
        let ghost g = self@;
        let n = self.number_processor_per_dimension();
        let mut res: Vec<i64> = Vec::new();
        let mut z: u32 = 0;
        while z < n
            invariant
                self.wf(),
                g == self@,
                n == g.n(),
                z <= n,
                res@.len() == z * n,
                forall|k: int| 0 <= k < res@.len() ==> #[trigger] res@[k] == g.result_plane()[k],
            decreases n - z,
        {
            let mut x: u32 = 0;
            while x < n
                invariant
                    self.wf(),
                    g == self@,
                    n == g.n(),
                    z < n,
                    x <= n,
                    res@.len() == z * n + x,
                    forall|k: int| 0 <= k < res@.len() ==> #[trigger] res@[k] == g.result_plane()[k],
                decreases n - x,
            {
                proof {
                    let k = z * n + x;
                    vstd::arithmetic::div_mod::lemma_fundamental_div_mod_converse(
                        k,
                        n as int,
                        z as int,
                        x as int,
                    );
                    assert(k < n * n) by (nonlinear_arith)
                        requires
                            z < n,
                            x < n,
                            k == z * n + x,
                    ;
                }
                res.push(self.get_processor(x, 0, z).c);
                x = x + 1;
            }
            proof {
                assert((z + 1) * n == z * n + n) by (nonlinear_arith);
            }
            z = z + 1;
        }
        proof {
            assert(res@ =~= g.result_plane());
        }
        res
    }

    /// Seeds the plane y = 0 from two `n x n` matrices given as rows:
    /// `(x, 0, z)` gets A = `matrix_a[z][x]` and B = `matrix_b[z][x]`.
    /// Fails, changing nothing, when a matrix has fewer than `n` rows or one of
    /// its first `n` rows holds fewer than `n` entries.
    pub fn init_nested(&mut self, matrix_a: &Vec<Vec<i64>>, matrix_b: &Vec<Vec<i64>>) -> (r: Result<
        (),
        HypercubeError,
    >)
        requires
            old(self).wf(),
        ensures
            final(self).wf(),
            ({
                let g = old(self)@;
                if !covers(matrix_a@, g.n()) || !covers(matrix_b@, g.n()) {
                    r == Err::<(), HypercubeError>(HypercubeError::ShortInput) && final(self)@ == g
                } else {
                    r == Ok::<(), HypercubeError>(()) && g.seed_post(
                        final(self)@,
                        |z: int, x: int| matrix_a@[z]@[x],
                        |z: int, x: int| matrix_b@[z]@[x],
                    )
                }
            }),
    {
        let ghost g = self@;
        let n = self.number_processor_per_dimension();
        if matrix_a.len() < n as usize || matrix_b.len() < n as usize {
            return Err(HypercubeError::ShortInput);
        }
        let mut row: usize = 0;
        while row < n as usize
            invariant
                self.wf(),
                self@ == g,
                n == g.n(),
                matrix_a@.len() >= n,
                matrix_b@.len() >= n,
                row <= n,
                forall|z: int| 0 <= z < row ==> #[trigger] matrix_a@[z]@.len() >= n,
                forall|z: int| 0 <= z < row ==> #[trigger] matrix_b@[z]@.len() >= n,
            decreases n - row,
        {
            if matrix_a[row].len() < n as usize || matrix_b[row].len() < n as usize {
                return Err(HypercubeError::ShortInput);
            }
            row = row + 1;
        }
        let mut z: u32 = 0;
        while z < n
            invariant
                self.wf(),
                g.wf(),
                self@.q == g.q,
                self@.step == g.step,
                self@.cells.len() == g.cells.len(),
                n == g.n(),
                covers(matrix_a@, n as int),
                covers(matrix_b@, n as int),
                z <= n,
                forall|x2: int, y2: int, z2: int|
                    g.contains(x2, y2, z2) ==> #[trigger] self@.cell(x2, y2, z2) == if y2 == 0
                        && z2 < z {
                        crate::grid::with_ab(
                            g.cell(x2, y2, z2),
                            matrix_a@[z2]@[x2],
                            matrix_b@[z2]@[x2],
                        )
                    } else {
                        g.cell(x2, y2, z2)
                    },
            decreases n - z,
        {
            let mut x: u32 = 0;
            while x < n
                invariant
                    self.wf(),
                    g.wf(),
                    self@.q == g.q,
                    self@.step == g.step,
                    self@.cells.len() == g.cells.len(),
                    n == g.n(),
                    covers(matrix_a@, n as int),
                    covers(matrix_b@, n as int),
                    z < n,
                    x <= n,
                    forall|x2: int, y2: int, z2: int|
                        g.contains(x2, y2, z2) ==> #[trigger] self@.cell(x2, y2, z2) == if y2 == 0
                            && (z2 < z || (z2 == z && x2 < x)) {
                            crate::grid::with_ab(
                                g.cell(x2, y2, z2),
                                matrix_a@[z2]@[x2],
                                matrix_b@[z2]@[x2],
                            )
                        } else {
                            g.cell(x2, y2, z2)
                        },
                decreases n - x,
            {
                let current = self.get_processor_copy(x, 0, z);
                let a_value = matrix_a[z as usize][x as usize];
                let b_value = matrix_b[z as usize][x as usize];
                self.set_processor(
                    x,
                    0,
                    z,
                    Processor { id: current.id, a: a_value, b: b_value, c: current.c },
                );
                x = x + 1;
            }
            z = z + 1;
        }
        Ok(())
    }

    /// Returns to the state before any step, every register zero, keeping the grid.
    pub fn reset(&mut self)
        requires
            old(self).wf(),
        ensures
            final(self).wf(),
            final(self)@.q == old(self)@.q,
            final(self)@.step == 0,
            final(self)@.is_zeroed(),
    {
        let ghost g = self@;
        let mut i: usize = 0;
        while i < self.processor_list.len()
            invariant
                self.sizes_agree(),
                self@.q == g.q,
                g.wf(),
                self@.step == g.step,
                self@.cells.len() == g.cells.len(),
                i <= self@.cells.len(),
                forall|k: int| 0 <= k < self@.cells.len() ==> #[trigger] self@.cells[k].id == k,
                forall|k: int|
                    0 <= k < i ==> #[trigger] self@.cells[k].a == 0 && self@.cells[k].b == 0
                        && self@.cells[k].c == 0,
            decreases self@.cells.len() - i,
        {
            let id = self.processor_list[i].id;
            self.processor_list.set(i, Processor { id, a: 0, b: 0, c: 0 });
            i = i + 1;
        }
        self.current_step = 0;
    }
}

} // verus!
