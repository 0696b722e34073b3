use vstd::prelude::*;

verus! {

/// A length is usable as pattern data iff it is a perfect square.
pub open spec fn is_perfect_square(l: nat) -> bool {
    exists|s: nat| l == #[trigger] (s * s)
}

/// Largest r with r * r <= l.
pub fn integer_square_root(l: usize) -> (r: usize)
    ensures
        r * r <= l,
        l < (r + 1) * (r + 1),
{
    let mut r: usize = 0;
    loop
        invariant
            r * r <= l,
            r <= l,
            r <= 0x1_0000_0000,
        ensures
            r * r <= l,
            l < (r + 1) * (r + 1),
        decreases l - r,
    {
        let next: u128 = r as u128 + 1;
        assert(next * next <= 0x2_0000_0002_0000_0001u128) by (nonlinear_arith)
            requires
                next <= 0x1_0000_0001,
        ;
        if next * next > l as u128 {
            break;
        }
        assert((r + 1) * (r + 1) <= l);
        assert(r + 1 <= (r + 1) * (r + 1)) by (nonlinear_arith);
        assert(r + 1 <= 0x1_0000_0000) by (nonlinear_arith)
            requires
                (r + 1) * (r + 1) <= l,
                l <= 0xffff_ffff_ffff_ffff,
        ;
        r += 1;
    }
    r
}

/// The side of a square of a perfectly square area is unique.
pub proof fn lemma_square_root_unique(s: nat, r: nat, l: nat)
    requires
        l == s * s,
        r * r <= l,
        l < (r + 1) * (r + 1),
    ensures
        r == s,
{
    if s < r {
        assert(s * s < r * r) by (nonlinear_arith)
            requires s < r;
    }
    if r < s {
        assert((r + 1) * (r + 1) <= s * s) by (nonlinear_arith)
            requires r + 1 <= s;
    }
}

/// Decompose a flat row-major index of an x-wide, y-tall grid into its row
/// and column.
pub proof fn lemma_grid_decode(x: int, y: int, i: int)
    requires
        x >= 1,
        y >= 1,
        0 <= i < x * y,
    ensures
        0 <= i / x < y,
        0 <= i % x < x,
        i == (i / x) * x + i % x,
{
    vstd::arithmetic::div_mod::lemma_fundamental_div_mod(i, x);
    assert(0 <= i % x < x) by (nonlinear_arith)
        requires
            x >= 1,
            i >= 0,
    ;
    assert(i / x >= 0) by (nonlinear_arith)
        requires
            x >= 1,
            i >= 0,
    ;
    if i / x >= y {
        assert(x * (i / x) >= x * y) by (nonlinear_arith)
            requires
                i / x >= y,
                x >= 1,
        ;
    }
}

/// A row and column of an x-wide, y-tall grid give a flat index inside the
/// grid, and the index decodes back to them.
pub proof fn lemma_grid_encode(x: int, y: int, r: int, c: int)
    requires
        x >= 1,
        0 <= r < y,
        0 <= c < x,
    ensures
        0 <= r * x + c < x * y,
        (r * x + c) / x == r,
        (r * x + c) % x == c,
{
    assert(0 <= r * x + c < x * y) by (nonlinear_arith)
        requires
            0 <= r < y,
            0 <= c < x,
    ;
    vstd::arithmetic::div_mod::lemma_fundamental_div_mod_converse(r * x + c, x, r, c);
}

/// Floor of the base-2 logarithm; 0 for inputs 0 and 1.
pub open spec fn log2_floor(n: nat) -> nat
    decreases n,
{
    if n <= 1 {
        0
    } else {
        1 + log2_floor(n / 2)
    }
}

pub fn log2_floor_exec(n: u64) -> (r: u64)
    ensures
        r == log2_floor(n as nat),
{
    proof {
        reveal_with_fuel(pow2_spec, 65);
        assert(pow2_spec(64) == 0x1_0000_0000_0000_0000);
        lemma_log2_floor_le_pow(n as nat, 64);
    }
    let mut m: u64 = n;
    let mut r: u64 = 0;
    while m > 1
        invariant
            r + log2_floor(m as nat) == log2_floor(n as nat),
            log2_floor(n as nat) <= 64,
        decreases m,
    {
        m = m / 2;
        r += 1;
    }
    r
}

/// log2_floor is monotone.
pub proof fn lemma_log2_floor_monotone(a: nat, b: nat)
    requires
        a <= b,
    ensures
        log2_floor(a) <= log2_floor(b),
    decreases b,
{
    if a > 1 {
        lemma_log2_floor_monotone(a / 2, b / 2);
    }
}

/// Weights at most 2^32 have log2_floor at most 32, the bound the entropy
/// sums rely on.
pub proof fn lemma_log2_floor_small(n: nat)
    requires
        n <= 0x1_0000_0000,
    ensures
        log2_floor(n) <= 32,
{
    reveal_with_fuel(pow2_spec, 33);
    assert(pow2_spec(32) == 0x1_0000_0000);
    lemma_log2_floor_le_pow(n, 32);
}

/// Anything at most 2^k has log2_floor at most k.
proof fn lemma_log2_floor_le_pow(n: nat, k: nat)
    requires
        n <= pow2_spec(k),
    ensures
        log2_floor(n) <= k,
    decreases k,
{
    if n > 1 {
        assert(pow2_spec(0) == 1);
        assert(k > 0);
        assert(pow2_spec(k) / 2 == pow2_spec((k - 1) as nat));
        lemma_log2_floor_le_pow(n / 2, (k - 1) as nat);
    }
}

pub open spec fn pow2_spec(k: nat) -> nat
    decreases k,
{
    if k == 0 {
        1
    } else {
        2 * pow2_spec((k - 1) as nat)
    }
}

} // verus!
