use vstd::arithmetic::div_mod::lemma_fundamental_div_mod_converse;
use vstd::arithmetic::power2::{lemma2_to64, lemma_pow2_adds, lemma_pow2_strictly_increases, pow2};
use vstd::bits::lemma_u32_shl_is_mul;
use vstd::prelude::*;

verus! {

/// Largest number of bits per axis: 3 * 10 bits keep every linear index inside `u32`.
pub const MAX_BITS_PER_DIMENSION: u32 = 10;

/// Side of the largest grid, `2^MAX_BITS_PER_DIMENSION`.
pub const MAX_SIDE: usize = 1024;

/// Linear index of `(x, y, z)` with `q` bits per axis: `x + (y << q) + (z << 2q)`.
pub open spec fn linear_index(q: nat, x: int, y: int, z: int) -> int {
    x + y * pow2(q) + z * pow2(2 * q)
}

/// `(x, y, z)` lies in a grid of side `n`.
pub open spec fn in_grid(n: int, x: int, y: int, z: int) -> bool {
    0 <= x < n && 0 <= y < n && 0 <= z < n
}

/// `n` is `2^q` for some `q`.
pub open spec fn is_power_of_two(n: int) -> bool {
    exists|q: nat| pow2(q) == n
}

/// `2^(2q) == 2^q * 2^q`.
pub proof fn lemma_pow2_double(q: nat)
    ensures
        pow2(2 * q) == pow2(q) * pow2(q),
{
    lemma_pow2_adds(q, q);
}

/// Within the bit budget, a side is at most `MAX_SIDE`.
pub proof fn lemma_side_bound(q: nat)
    requires
        q <= MAX_BITS_PER_DIMENSION,
    ensures
        1 <= pow2(q) <= MAX_SIDE,
{
    lemma2_to64();
    if q < 10 {
        lemma_pow2_strictly_increases(q, 10);
    }
}

/// The linear index of a cell of the grid is below `n^3`.
pub proof fn lemma_linear_index_bounds(q: nat, x: int, y: int, z: int)
    requires
        in_grid(pow2(q) as int, x, y, z),
    ensures
        0 <= linear_index(q, x, y, z) < pow2(q) * pow2(q) * pow2(q),
{
    let n = pow2(q) as int;
    lemma_pow2_double(q);
    assert(0 <= x + y * n + z * (n * n) < n * n * n) by (nonlinear_arith)
        requires
            0 <= x < n,
            0 <= y < n,
            0 <= z < n,
    ;
}

/// Decoding: `x`, `y`, `z` are recovered from the linear index by division by `n`.
pub proof fn lemma_linear_index_decode(q: nat, x: int, y: int, z: int)
    requires
        in_grid(pow2(q) as int, x, y, z),
    ensures
        x == linear_index(q, x, y, z) % (pow2(q) as int),
        y == (linear_index(q, x, y, z) / (pow2(q) as int)) % (pow2(q) as int),
        z == linear_index(q, x, y, z) / (pow2(q) as int) / (pow2(q) as int),
{
    let n = pow2(q) as int;
    let i = linear_index(q, x, y, z);
    lemma_pow2_double(q);
    let w = y + z * n;
    assert(i == w * n + x) by (nonlinear_arith)
        requires
            i == x + y * n + z * (n * n),
            w == y + z * n,
    ;
    lemma_fundamental_div_mod_converse(i, n, w, x);
    assert(w == z * n + y) by (nonlinear_arith)
        requires
            w == y + z * n,
    ;
    lemma_fundamental_div_mod_converse(w, n, z, y);
}

/// Two cells of the grid with the same linear index are the same cell.
pub proof fn lemma_linear_index_injective(
    q: nat,
    x1: int,
    y1: int,
    z1: int,
    x2: int,
    y2: int,
    z2: int,
)
    requires
        in_grid(pow2(q) as int, x1, y1, z1),
        in_grid(pow2(q) as int, x2, y2, z2),
        linear_index(q, x1, y1, z1) == linear_index(q, x2, y2, z2),
    ensures
        x1 == x2 && y1 == y2 && z1 == z2,
{
    lemma_linear_index_decode(q, x1, y1, z1);
    lemma_linear_index_decode(q, x2, y2, z2);
}

/// Encodes `(x, y, z)` by bit interleaving: `x + (y << q) + (z << 2q)`.
pub fn encode(q: u32, x: u32, y: u32, z: u32) -> (r: u32)
    requires
        q <= MAX_BITS_PER_DIMENSION,
        in_grid(pow2(q as nat) as int, x as int, y as int, z as int),
    ensures
        r as int == linear_index(q as nat, x as int, y as int, z as int),
        (r as int) < pow2(q as nat) * pow2(q as nat) * pow2(q as nat),
{
    proof {
        let n = pow2(q as nat) as int;
        lemma_side_bound(q as nat);
        lemma_pow2_double(q as nat);
        lemma_linear_index_bounds(q as nat, x as int, y as int, z as int);
        assert(y * n <= 1024 * 1024 && z * (n * n) <= 1024 * 1024 * 1024) by (nonlinear_arith)
            requires
                0 <= y < n,
                0 <= z < n,
                n <= 1024,
        ;
        lemma_u32_shl_is_mul(y, q);
        lemma_u32_shl_is_mul(z, (2 * q) as u32);
    }
    x + (y << q) + (z << (2 * q))
}

/// Decodes a linear index into `(x, y, z)`; the inverse of `encode`.
pub fn decode(q: u32, index: u32) -> (r: (u32, u32, u32))
    requires
        q <= MAX_BITS_PER_DIMENSION,
        (index as int) < pow2(q as nat) * pow2(q as nat) * pow2(q as nat),
    ensures
        in_grid(pow2(q as nat) as int, r.0 as int, r.1 as int, r.2 as int),
        linear_index(q as nat, r.0 as int, r.1 as int, r.2 as int) == index as int,
{
    proof {
        lemma_side_bound(q as nat);
    }
    let n: u32 = 1u32 << q;
    proof {
        lemma_u32_shl_is_mul(1, q);
    }
    let x = index % n;
    let w = index / n;
    let y = w % n;
    let z = w / n;
    proof {
        let ni = n as int;
        let i = index as int;
        lemma_pow2_double(q as nat);
        assert(i == (i / ni) * ni + i % ni) by (nonlinear_arith)
            requires
                ni > 0,
        ;
        assert(w == (w / n) * n + w % n) by (nonlinear_arith)
            requires
                n > 0,
        ;
        assert(i == w * ni + x);
        assert(w == z * ni + y);
        assert((z as int) < ni) by (nonlinear_arith)
            requires
                ni > 0,
                i < ni * ni * ni,
                i == w * ni + x,
                w == z * ni + y,
                x >= 0,
                y >= 0,
        ;
        assert(i == x + y * ni + z * (ni * ni)) by (nonlinear_arith)
            requires
                i == w * ni + x,
                w == z * ni + y,
        ;
    }
    (x, y, z)
}

} // verus!
