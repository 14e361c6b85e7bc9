use crate::address::{lemma_linear_index_bounds, linear_index};
use crate::grid::CubeView;
use crate::wrap::{lemma_wrap_congruent, lemma_wrap_in_range, lemma_wrap_same_residue, modulus, wrap64};
use vstd::arithmetic::div_mod::{lemma_add_mod_noop, lemma_fundamental_div_mod_converse};
use vstd::arithmetic::power2::pow2;
use vstd::prelude::*;

verus! {

/// Exact sum over `y' = y..n` of `ma(z, y') * mb(y', x)`.
pub open spec fn dot_from(
    ma: spec_fn(int, int) -> i64,
    mb: spec_fn(int, int) -> i64,
    n: int,
    z: int,
    x: int,
    y: int,
) -> int
    decreases n - y,
{
    if y < 0 || y >= n {
        0
    } else {
        ma(z, y) * mb(y, x) + dot_from(ma, mb, n, z, x, y + 1)
    }
}

/// Entry `(z, x)` of the product of the `n x n` matrices `ma` and `mb`, modulo `2^64`.
pub open spec fn product_entry(
    ma: spec_fn(int, int) -> i64,
    mb: spec_fn(int, int) -> i64,
    n: int,
    z: int,
    x: int,
) -> i64 {
    wrap64(dot_from(ma, mb, n, z, x, 0))
}

/// Exact sum over the column `(x, y'..n, z)` of A * B.
pub open spec fn column_sum_ab(g: CubeView, x: int, z: int, y: int) -> int
    decreases g.n() - y,
{
    if y < 0 || y >= g.n() {
        0
    } else {
        g.cell(x, y, z).a * g.cell(x, y, z).b + column_sum_ab(g, x, z, y + 1)
    }
}

/// `g0` is seeded with `ma` and `mb` into `g1`, and `g1` advanced five times
/// gives `g2` to `g6`.
pub open spec fn multiplication_run(
    g0: CubeView,
    g1: CubeView,
    g2: CubeView,
    g3: CubeView,
    g4: CubeView,
    g5: CubeView,
    g6: CubeView,
    ma: spec_fn(int, int) -> i64,
    mb: spec_fn(int, int) -> i64,
) -> bool {
    &&& g0.wf()
    &&& g0.step == 0
    &&& g0.seed_post(g1, ma, mb)
    &&& g1.advance_post(g2)
    &&& g2.advance_post(g3)
    &&& g3.advance_post(g4)
    &&& g4.advance_post(g5)
    &&& g5.advance_post(g6)
}

/// Every processor's id is its linear index `x + (y << q) + (z << 2q)`.
pub proof fn lemma_ids_are_linear_indices(h: CubeView, x: int, y: int, z: int)
    requires
        h.wf(),
        h.contains(x, y, z),
    ensures
        h.cell(x, y, z).id == x + y * pow2(h.q) + z * pow2(2 * h.q),
{
    lemma_linear_index_bounds(h.q, x, y, z);
    assert(h.cells[linear_index(h.q, x, y, z)].id == linear_index(h.q, x, y, z));
}

/// After step 1, every column along Y holds in A and B what its cell at y = 0 held.
pub proof fn lemma_broadcast_fills_columns(g: CubeView, h: CubeView)
    requires
        g.wf(),
        g.step == 0,
        g.advance_post(h),
    ensures
        h.step == 1,
        forall|x: int, y: int, z: int|
            g.contains(x, y, z) ==> #[trigger] h.cell(x, y, z).a == g.cell(x, 0, z).a
                && h.cell(x, y, z).b == g.cell(x, 0, z).b,
{
    assert forall|x: int, y: int, z: int| g.contains(x, y, z) implies #[trigger] h.cell(x, y, z).a
        == g.cell(x, 0, z).a && h.cell(x, y, z).b == g.cell(x, 0, z).b by {
        assert(h.cell(x, y, z) == g.phase_cell(1, x, y, z));
    }
}

/// Once all five steps are done, advancing changes nothing, however often it is asked.
pub proof fn lemma_advance_when_done(g: CubeView, h1: CubeView, h2: CubeView)
    requires
        g.step == 5,
        g.advance_post(h1),
        h1.advance_post(h2),
    ensures
        h1 == g,
        h2 == g,
{
}

/// The wrapped sum of wrapped terms is the wrapped exact sum: C summed by
/// step 5 over products wrapped by step 4.
proof fn lemma_column_sums_congruent(g3: CubeView, g4: CubeView, x: int, z: int, y: int)
    requires
        g3.phase_post(4, g4),
        0 <= x < g3.n(),
        0 <= z < g3.n(),
        0 <= y <= g3.n(),
    ensures
        g4.column_sum_c(x, z, y) % modulus() == column_sum_ab(g3, x, z, y) % modulus(),
    decreases g3.n() - y,
{
    if y < g3.n() {
        lemma_column_sums_congruent(g3, g4, x, z, y + 1);
        let t = g3.cell(x, y, z).a * g3.cell(x, y, z).b;
        assert(g4.cell(x, y, z) == g3.phase_cell(4, x, y, z));
        lemma_wrap_congruent(t);
        let rest4 = g4.column_sum_c(x, z, y + 1);
        let rest3 = column_sum_ab(g3, x, z, y + 1);
        lemma_add_mod_noop(wrap64(t) as int, rest4, modulus());
        lemma_add_mod_noop(t, rest3, modulus());
    }
}

/// After step 5, C at `(x, 0, z)` is the sum over y of A * B as they stood
/// after step 3, with wrapping arithmetic.
pub proof fn lemma_reduce_sums_products(
    g3: CubeView,
    g4: CubeView,
    g5: CubeView,
    x: int,
    z: int,
)
    requires
        g3.phase_post(4, g4),
        g4.phase_post(5, g5),
        0 <= x < g3.n(),
        0 <= z < g3.n(),
    ensures
        g5.cell(x, 0, z).c == wrap64(column_sum_ab(g3, x, z, 0)),
{
    assert(g5.cell(x, 0, z) == g4.phase_cell(5, x, 0, z));
    lemma_column_sums_congruent(g3, g4, x, z, 0);
    lemma_wrap_same_residue(g4.column_sum_c(x, z, 0), column_sum_ab(g3, x, z, 0));
}

/// After step 3 of a run, A and B along the column `(x, ., z)` are the
/// operands `ma(z, y)` and `mb(y, x)`; the column sum is their dot product.
proof fn lemma_operands_after_selection(
    g0: CubeView,
    g1: CubeView,
    g2: CubeView,
    g3: CubeView,
    g4: CubeView,
    g5: CubeView,
    g6: CubeView,
    ma: spec_fn(int, int) -> i64,
    mb: spec_fn(int, int) -> i64,
    x: int,
    z: int,
    y: int,
)
    requires
        multiplication_run(g0, g1, g2, g3, g4, g5, g6, ma, mb),
        0 <= x < g0.n(),
        0 <= z < g0.n(),
        0 <= y <= g0.n(),
    ensures
        column_sum_ab(g4, x, z, y) == dot_from(ma, mb, g0.n(), z, x, y),
    decreases g0.n() - y,
{
    if y < g0.n() {
        lemma_operands_after_selection(g0, g1, g2, g3, g4, g5, g6, ma, mb, x, z, y + 1);
        assert(g4.cell(x, y, z) == g3.phase_cell(3, x, y, z));
        assert(g3.cell(x, y, z) == g2.phase_cell(2, x, y, z));
        assert(g3.cell(x, y, y) == g2.phase_cell(2, x, y, y));
        assert(g2.cell(y, y, z) == g1.phase_cell(1, y, y, z));
        assert(g2.cell(x, y, y) == g1.phase_cell(1, x, y, y));
        assert(g1.cell(y, 0, z).a == ma(z, y));
        assert(g1.cell(x, 0, y).b == mb(y, x));
    }
}

/// Seeding with `ma` and `mb` and advancing five times leaves, at offset
/// `z * n + x` of the result plane, entry `(z, x)` of the product `ma * mb`
/// modulo `2^64`.
pub proof fn lemma_run_multiplies(
    g0: CubeView,
    g1: CubeView,
    g2: CubeView,
    g3: CubeView,
    g4: CubeView,
    g5: CubeView,
    g6: CubeView,
    ma: spec_fn(int, int) -> i64,
    mb: spec_fn(int, int) -> i64,
)
    requires
        multiplication_run(g0, g1, g2, g3, g4, g5, g6, ma, mb),
    ensures
        g6.step == 5,
        g6.result_plane().len() == g0.n() * g0.n(),
        forall|z: int, x: int|
            0 <= z < g0.n() && 0 <= x < g0.n() ==> #[trigger] g6.result_plane()[z * g0.n() + x]
                == product_entry(ma, mb, g0.n(), z, x),
{
    let n = g0.n();
    assert forall|z: int, x: int| 0 <= z < n && 0 <= x < n implies #[trigger] g6.result_plane()[z
        * n + x] == product_entry(ma, mb, n, z, x) by {
        let k = z * n + x;
        lemma_fundamental_div_mod_converse(k, n, z, x);
        assert(k < n * n) by (nonlinear_arith)
            requires
                0 <= z < n,
                0 <= x < n,
                k == z * n + x,
        ;
        lemma_reduce_sums_products(g4, g5, g6, x, z);
        lemma_operands_after_selection(g0, g1, g2, g3, g4, g5, g6, ma, mb, x, z, 0);
    }
}

/// Offset `k` of a plane of side `n` is `(k / n) * n + k % n`, both parts below `n`.
proof fn lemma_plane_offset(k: int, n: int)
    requires
        n > 0,
        0 <= k < n * n,
    ensures
        0 <= k / n < n,
        0 <= k % n < n,
        k == (k / n) * n + k % n,
{
    vstd::arithmetic::div_mod::lemma_fundamental_div_mod(k, n);
    vstd::arithmetic::div_mod::lemma_mod_pos_bound(k, n);
    vstd::arithmetic::div_mod::lemma_div_pos_is_pos(k, n);
    vstd::arithmetic::mul::lemma_mul_is_commutative(n, k / n);
    assert(k / n < n) by (nonlinear_arith)
        requires
            n > 0,
            k < n * n,
            k == n * (k / n) + k % n,
            k % n >= 0,
    ;
}

/// `m` is zero on every entry of an `n x n` matrix.
pub open spec fn is_zero(m: spec_fn(int, int) -> i64, n: int) -> bool {
    forall|r: int, c: int| 0 <= r < n && 0 <= c < n ==> #[trigger] m(r, c) == 0
}

/// A dot product of a zero row, or with a zero column, is zero.
proof fn lemma_dot_zero(
    ma: spec_fn(int, int) -> i64,
    mb: spec_fn(int, int) -> i64,
    n: int,
    z: int,
    x: int,
    y: int,
)
    requires
        is_zero(ma, n) || is_zero(mb, n),
        0 <= z < n,
        0 <= x < n,
    ensures
        dot_from(ma, mb, n, z, x, y) == 0,
    decreases n - y,
{
    if 0 <= y < n {
        lemma_dot_zero(ma, mb, n, z, x, y + 1);
        if is_zero(ma, n) {
            assert(ma(z, y) == 0);
        } else {
            assert(mb(y, x) == 0);
        }
    }
}

/// `m` is the `n x n` identity matrix.
pub open spec fn is_identity(m: spec_fn(int, int) -> i64, n: int) -> bool {
    forall|r: int, c: int|
        0 <= r < n && 0 <= c < n ==> #[trigger] m(r, c) == if r == c { 1i64 } else { 0i64 }
}

/// A dot product of row `z` of the identity with column `x` picks entry `z` of the column.
proof fn lemma_dot_identity_left(
    ma: spec_fn(int, int) -> i64,
    mb: spec_fn(int, int) -> i64,
    n: int,
    z: int,
    x: int,
    y: int,
)
    requires
        is_identity(ma, n),
        0 <= z < n,
        0 <= x < n,
        0 <= y <= n,
    ensures
        dot_from(ma, mb, n, z, x, y) == if y <= z { mb(z, x) as int } else { 0 },
    decreases n - y,
{
    if y < n {
        lemma_dot_identity_left(ma, mb, n, z, x, y + 1);
        assert(dot_from(ma, mb, n, z, x, y) == ma(z, y) * mb(y, x) + dot_from(ma, mb, n, z, x, y + 1));
        assert(ma(z, y) == if z == y { 1i64 } else { 0i64 });
    }
}

/// A dot product of row `z` with column `x` of the identity picks entry `x` of the row.
proof fn lemma_dot_identity_right(
    ma: spec_fn(int, int) -> i64,
    mb: spec_fn(int, int) -> i64,
    n: int,
    z: int,
    x: int,
    y: int,
)
    requires
        is_identity(mb, n),
        0 <= z < n,
        0 <= x < n,
        0 <= y <= n,
    ensures
        dot_from(ma, mb, n, z, x, y) == if y <= x { ma(z, x) as int } else { 0 },
    decreases n - y,
{
    if y < n {
        lemma_dot_identity_right(ma, mb, n, z, x, y + 1);
        assert(dot_from(ma, mb, n, z, x, y) == ma(z, y) * mb(y, x) + dot_from(ma, mb, n, z, x, y + 1));
        assert(mb(y, x) == if y == x { 1i64 } else { 0i64 });
    }
}

/// A zero factor, on the left or on the right, gives a zero product.
pub proof fn lemma_zero_product(
    g0: CubeView,
    g1: CubeView,
    g2: CubeView,
    g3: CubeView,
    g4: CubeView,
    g5: CubeView,
    g6: CubeView,
    ma: spec_fn(int, int) -> i64,
    mb: spec_fn(int, int) -> i64,
)
    requires
        multiplication_run(g0, g1, g2, g3, g4, g5, g6, ma, mb),
        is_zero(ma, g0.n()) || is_zero(mb, g0.n()),
    ensures
        forall|k: int| 0 <= k < g6.result_plane().len() ==> #[trigger] g6.result_plane()[k] == 0,
{
    lemma_run_multiplies(g0, g1, g2, g3, g4, g5, g6, ma, mb);
    let n = g0.n();
    assert forall|k: int| 0 <= k < g6.result_plane().len() implies #[trigger] g6.result_plane()[k]
        == 0 by {
        lemma_plane_offset(k, n);
        lemma_dot_zero(ma, mb, n, k / n, k % n, 0);
        lemma_wrap_in_range(0);
        assert(g6.result_plane()[(k / n) * n + k % n] == product_entry(ma, mb, n, k / n, k % n));
    }
}

} // verus!

verus! {

/// The identity matrix times `mb` gives `mb`, and `ma` times the identity gives `ma`.
pub proof fn lemma_identity_product(
    g0: CubeView,
    g1: CubeView,
    g2: CubeView,
    g3: CubeView,
    g4: CubeView,
    g5: CubeView,
    g6: CubeView,
    ma: spec_fn(int, int) -> i64,
    mb: spec_fn(int, int) -> i64,
)
    requires
        multiplication_run(g0, g1, g2, g3, g4, g5, g6, ma, mb),
    ensures
        is_identity(ma, g0.n()) ==> forall|z: int, x: int|
            0 <= z < g0.n() && 0 <= x < g0.n() ==> #[trigger] g6.result_plane()[z * g0.n() + x]
                == mb(z, x),
        is_identity(mb, g0.n()) ==> forall|z: int, x: int|
            0 <= z < g0.n() && 0 <= x < g0.n() ==> #[trigger] g6.result_plane()[z * g0.n() + x]
                == ma(z, x),
{
    lemma_run_multiplies(g0, g1, g2, g3, g4, g5, g6, ma, mb);
    let n = g0.n();
    if is_identity(ma, n) {
        assert forall|z: int, x: int| 0 <= z < n && 0 <= x < n implies #[trigger] g6.result_plane()[z
            * n + x] == mb(z, x) by {
            lemma_dot_identity_left(ma, mb, n, z, x, 0);
            lemma_wrap_in_range(mb(z, x) as int);
        }
    }
    if is_identity(mb, n) {
        assert forall|z: int, x: int| 0 <= z < n && 0 <= x < n implies #[trigger] g6.result_plane()[z
            * n + x] == ma(z, x) by {
            lemma_dot_identity_right(ma, mb, n, z, x, 0);
            lemma_wrap_in_range(ma(z, x) as int);
        }
    }
}

} // verus!
