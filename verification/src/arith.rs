//! Powers of two, size classes, and the arithmetic facts the allocator
//! needs about them.
//!
//! Block sizes are powers of two between `2^3` (the smallest tracked block)
//! and `2^34` (size class 31). All reasoning is done over `pow2` from vstd;
//! the executable helpers compute the same values by repeated doubling so
//! that no bit-level reasoning is needed.

use vstd::prelude::*;
use vstd::arithmetic::power2::{
    pow2, lemma_pow2_adds, lemma_pow2_pos, lemma_pow2_strictly_increases, lemma2_to64,
    lemma2_to64_rest,
};
use vstd::arithmetic::div_mod::{
    lemma_breakdown, lemma_fundamental_div_mod, lemma_fundamental_div_mod_converse,
};

verus! {

/// Number of size classes (bins) the allocator keeps.
pub const NUM_CLASSES: usize = 32;

/// Size in addressable units of a block in size class `b`: `2^(b + 3)`.
/// Class 0 holds the smallest blocks (8 units); class 31 holds `2^34`.
pub open spec fn class_size(b: int) -> nat
    recommends
        0 <= b,
{
    pow2((b + 3) as nat)
}

/// True when `n` is a (positive) power of two.
pub open spec fn is_power_of_two(n: u64) -> bool
    decreases n,
{
    if n == 0 {
        false
    } else if n == 1 {
        true
    } else {
        n % 2 == 0 && is_power_of_two(n / 2)
    }
}

/// The size class that serves a request of `size` units, searching upward
/// from class `b`: the least class at or above `b` whose block size reaches
/// `size`. The search stops at 61 at the latest, where blocks of `2^64`
/// units exceed any representable request.
pub open spec fn size_class_from(size: u64, b: nat) -> nat
    decreases 61 - b when b <= 61
{
    if b >= 61 || pow2((b + 3) as nat) >= size {
        b
    } else {
        size_class_from(size, (b + 1) as nat)
    }
}

/// The size class that serves a request of `size` units: the least `b` with
/// `class_size(b) >= size`. Classes at or above `NUM_CLASSES` exist only as
/// a way to say "too large for any bin".
pub open spec fn size_class(size: u64) -> nat {
    size_class_from(size, 0)
}

/// The block size of the class found for `size` is the least power of two
/// (not below `2^3`) that covers the request.
pub proof fn lemma_size_class_from_props(size: u64, b: nat)
    requires
        b <= 61,
        size >= 1,
    ensures
        b <= size_class_from(size, b) <= 61,
        pow2((size_class_from(size, b) + 3) as nat) >= size,
        forall|j: nat| b <= j < size_class_from(size, b) ==> #[trigger] pow2((j + 3) as nat) < size,
    decreases 61 - b,
{
    if b >= 61 || pow2((b + 3) as nat) >= size {
        if b >= 61 && pow2((b + 3) as nat) < size {
            // impossible: pow2(64) exceeds every u64
            lemma2_to64_rest();
            assert(size < pow2(64)) by {
                assert(pow2(64) == 0x10000000000000000) by {
                    lemma2_to64_rest();
                }
            }
            assert(b == 61);
        }
    } else {
        lemma_size_class_from_props(size, (b + 1) as nat);
    }
}

/// A power of two divides every larger power of two.
pub proof fn lemma_pow2_divides(e1: nat, e2: nat)
    requires
        e1 <= e2,
    ensures
        pow2(e2) as int % pow2(e1) as int == 0,
{
    lemma_pow2_adds(e1, (e2 - e1) as nat);
    lemma_pow2_pos(e1);
    lemma_pow2_pos((e2 - e1) as nat);
    lemma_fundamental_div_mod_converse(
        pow2(e2) as int,
        pow2(e1) as int,
        pow2((e2 - e1) as nat) as int,
        0,
    );
}

/// Divisibility is transitive: if `m` divides `x` and `d` divides `m`,
/// then `d` divides `x`.
pub proof fn lemma_divides_transitive(x: int, m: int, d: int)
    requires
        m >= 1,
        d >= 1,
        x >= 0,
        x % m == 0,
        m % d == 0,
    ensures
        x % d == 0,
{
    lemma_fundamental_div_mod(x, m);
    lemma_fundamental_div_mod(m, d);
    let qx = x / m;
    let qm = m / d;
    assert(x == m * qx && m == d * qm);
    assert((d * qm) * qx == (qm * qx) * d) by (nonlinear_arith);
    lemma_fundamental_div_mod_converse(x, d, qm * qx, 0);
}

/// A multiple of `m` is, modulo `2 * m`, either `0` or `m`.
pub proof fn lemma_mod_double(x: int, m: int)
    requires
        m >= 1,
        x >= 0,
        x % m == 0,
    ensures
        x % (2 * m) == 0 || x % (2 * m) == m,
        (x % (2 * m) == 0) == ((x / m) % 2 == 0),
{
    lemma_breakdown(x, m, 2);
    let q = x / m;
    assert(x % (m * 2) == m * (q % 2));
    assert(2 * m == m * 2);
    if q % 2 == 0 {
        assert(m * (q % 2) == 0) by (nonlinear_arith)
            requires
                q % 2 == 0,
        ;
    } else {
        assert(q % 2 == 1);
        assert(m * (q % 2) == m) by (nonlinear_arith)
            requires
                q % 2 == 1,
        ;
    }
}

/// A value below `2^64` that is a multiple of `pow2(e)` leaves room for one
/// more whole `pow2(e)` below `2^64`.
pub proof fn lemma_aligned_headroom(x: u64, e: nat)
    requires
        e <= 64,
        x as int % pow2(e) as int == 0,
    ensures
        x + pow2(e) <= pow2(64),
{
    lemma_pow2_pos(e);
    let m = pow2(e) as int;
    lemma_fundamental_div_mod(x as int, m);
    let q = x as int / m;
    lemma_pow2_divides(e, 64);
    lemma_fundamental_div_mod(pow2(64) as int, m);
    let qmax = pow2(64) as int / m;
    assert(x < pow2(64)) by {
        lemma2_to64_rest();
        assert(pow2(64) == 0x10000000000000000) by {
            lemma2_to64_rest();
        }
    }
    assert(m * q < m * qmax);
    assert(q < qmax) by (nonlinear_arith)
        requires
            m >= 1,
            m * q < m * qmax,
    ;
    assert(m * (q + 1) <= m * qmax) by (nonlinear_arith)
        requires
            m >= 1,
            q + 1 <= qmax,
    ;
    assert(m * (q + 1) == m * q + m) by (nonlinear_arith);
    assert(x + m == m * (q + 1));
}

/// Computes `class_size(b)` for a valid bin index.
pub fn class_block_size(b: usize) -> (s: u64)
    requires
        b < NUM_CLASSES,
    ensures
        s as nat == class_size(b as int),
        8 <= s,
        s as nat <= pow2(34),
{
    proof {
        lemma2_to64();
    }
    let mut s: u64 = 8;
    let mut j: usize = 0;
    while j < b
        invariant
            j <= b < 32,
            s as nat == pow2((j + 3) as nat),
        decreases b - j,
    {
        proof {
            lemma_pow2_adds((j + 3) as nat, 1);
            lemma2_to64();
            lemma_pow2_strictly_increases((j + 4) as nat, 35);
            lemma2_to64_rest();
        }
        s = s * 2;
        j = j + 1;
    }
    proof {
        if b + 3 < 34 {
            lemma_pow2_strictly_increases((b + 3) as nat, 34);
        }
        lemma2_to64_rest();
        if b > 0 {
            lemma_pow2_strictly_increases(3, (b + 3) as nat);
        }
        lemma2_to64();
    }
    s
}

/// Decides whether `n` is a power of two.
pub fn check_power_of_two(n: u64) -> (r: bool)
    ensures
        r == is_power_of_two(n),
{
    if n == 0 {
        return false;
    }
    let mut m: u64 = n;
    while m % 2 == 0
        invariant
            1 <= m <= n,
            is_power_of_two(n) == is_power_of_two(m),
        decreases m,
    {
        m = m / 2;
    }
    m == 1
}

/// Finds the size class of a request, capped at `NUM_CLASSES`: a result of
/// `NUM_CLASSES` means the true class is at least that large, so no bin can
/// serve the request.
pub fn find_size_class(size: u64) -> (b: usize)
    requires
        size >= 1,
    ensures
        b <= NUM_CLASSES,
        b < NUM_CLASSES ==> b as nat == size_class(size),
        b == NUM_CLASSES ==> size_class(size) >= NUM_CLASSES,
{
    proof {
        lemma2_to64();
    }
    let mut b: usize = 0;
    let mut s: u64 = 8;
    while s < size && b < 32
        invariant
            b <= 32,
            s as nat == pow2((b + 3) as nat),
            size_class(size) == size_class_from(size, b as nat),
        decreases 32 - b,
    {
        proof {
            lemma_pow2_adds((b + 3) as nat, 1);
            lemma2_to64();
            lemma_pow2_strictly_increases((b + 4) as nat, 36);
            lemma2_to64_rest();
            assert(size_class_from(size, b as nat) == size_class_from(size, (b + 1) as nat));
        }
        s = s * 2;
        b = b + 1;
    }
    if s >= size {
        proof {
            assert(size_class_from(size, b as nat) == b as nat);
        }
        b
    } else {
        proof {
            lemma_size_class_from_props(size, b as nat);
        }
        32
    }
}

} // verus!
