use vstd::arithmetic::div_mod::{lemma_add_mod_noop, lemma_fundamental_div_mod_converse};
use vstd::prelude::*;
use vstd::wrapping::i64_specs::{signed_crop, wrapping_add};

verus! {

/// The modulus of 64-bit two's complement arithmetic.
pub open spec fn modulus() -> int {
    0x1_0000_0000_0000_0000
}

/// `v` reduced into the range of `i64`, as wrapping 64-bit arithmetic does.
pub open spec fn wrap64(v: int) -> i64 {
    signed_crop(v)
}

/// A value already in range is left as it is.
pub proof fn lemma_wrap_in_range(v: int)
    requires
        i64::MIN <= v <= i64::MAX,
    ensures
        wrap64(v) == v,
{
    if v >= 0 {
        lemma_fundamental_div_mod_converse(v, modulus(), 0, v);
    } else {
        lemma_fundamental_div_mod_converse(v, modulus(), -1, v + modulus());
    }
}

/// Wrapping is congruent to the value wrapped.
pub proof fn lemma_wrap_congruent(v: int)
    ensures
        wrap64(v) as int % modulus() == v % modulus(),
{
    let r = v % modulus();
    assert(0 <= r < modulus());
    if r > i64::MAX {
        lemma_fundamental_div_mod_converse(r - modulus(), modulus(), -1, r);
    } else {
        lemma_fundamental_div_mod_converse(r, modulus(), 0, r);
    }
}

/// Values with the same residue wrap to the same value.
pub proof fn lemma_wrap_same_residue(u: int, v: int)
    requires
        u % modulus() == v % modulus(),
    ensures
        wrap64(u) == wrap64(v),
{
}

/// Wrapping an inner term of a sum does not change the wrapped sum.
pub proof fn lemma_wrap_absorbs(a: int, b: int)
    ensures
        wrap64(a + wrap64(b)) == wrap64(a + b),
{
    let m = modulus();
    lemma_wrap_congruent(b);
    lemma_add_mod_noop(a, wrap64(b) as int, m);
    lemma_add_mod_noop(a, b, m);
    lemma_wrap_same_residue(a + wrap64(b), a + b);
}

/// `i64::wrapping_add` is the wrapped exact sum.
pub proof fn lemma_wrapping_add_is_wrap(x: i64, y: i64)
    ensures
        wrapping_add(x, y) == wrap64(x + y),
{
    let m = modulus();
    let s = x + y;
    if s > i64::MAX {
        lemma_fundamental_div_mod_converse(s, m, 0, s);
    } else if s < i64::MIN {
        lemma_fundamental_div_mod_converse(s, m, -1, s + m);
    } else {
        lemma_wrap_in_range(s);
    }
}

} // verus!
