//! Pure index-mapping helpers for a fixed square canvas and for the array of
//! unordered nail pairs: linear pixel index to and from `(x, y)` coordinates,
//! and the triangular-number bijection between a pair `(a, b)` of nail
//! indices, `a < b`, and its position in the pair array.

use vstd::prelude::*;
use vstd::arithmetic::div_mod::{
    lemma_fundamental_div_mod, lemma_fundamental_div_mod_converse_div,
    lemma_fundamental_div_mod_converse_mod, lemma_div_multiples_vanish,
};

verus! {

/// Linear pixel index of the grid cell `(x, y)` on a square canvas of the
/// given side length, counting row by row from the top-left corner.
pub open spec fn pixel_of(x: int, y: int, side: int) -> int {
    y * side + x
}

/// Coordinates `(x, y)` of the linear pixel index `p` on a square canvas of
/// the given side length.
pub open spec fn coords_of(p: int, side: int) -> (int, int) {
    (p % side, p / side)
}

/// Going from coordinates to a pixel index and back returns the coordinates.
pub proof fn lemma_coords_of_pixel_of(x: int, y: int, side: int)
    requires
        0 <= x < side,
        0 <= y < side,
    ensures
        coords_of(pixel_of(x, y, side), side) == (x, y),
{
    lemma_fundamental_div_mod_converse_mod(y * side + x, side, y, x);
    lemma_fundamental_div_mod_converse_div(y * side + x, side, y, x);
}

/// Going from a pixel index to coordinates and back returns the index, and
/// the coordinates are in range.
pub proof fn lemma_pixel_of_coords_of(p: int, side: int)
    requires
        side >= 1,
        0 <= p < side * side,
    ensures
        pixel_of(coords_of(p, side).0, coords_of(p, side).1, side) == p,
        0 <= coords_of(p, side).0 < side,
        0 <= coords_of(p, side).1 < side,
{
    lemma_fundamental_div_mod(p, side);
    assert((p / side) * side == side * (p / side)) by (nonlinear_arith);
    assert(0 <= p % side < side) by {
        vstd::arithmetic::div_mod::lemma_mod_division_less_than_divisor(p, side);
    }
    assert(p / side < side) by {
        if p / side >= side {
            assert(p == side * (p / side) + p % side);
            assert(side * (p / side) >= side * side) by (nonlinear_arith)
                requires
                    side >= 1,
                    p / side >= side,
            ;
        }
    }
    assert(p / side >= 0) by {
        vstd::arithmetic::div_mod::lemma_div_pos_is_pos(p, side);
    }
}

/// Linear pixel index of `(x, y)`; the canvas side length is `side`.
pub fn to_pixel(x: u32, y: u32, side: u32) -> (p: u32)
    requires
        x < side,
        y < side,
        side * side <= u32::MAX,
    ensures
        p == pixel_of(x as int, y as int, side as int),
{
    proof {
        assert(y * side + x < side * side) by (nonlinear_arith)
            requires
                x < side,
                y < side,
            ;
    }
    y * side + x
}

/// Coordinates `(x, y)` of the linear pixel index `p`; the canvas side
/// length is `side`.
pub fn to_coordinates(p: u32, side: u32) -> (r: (u32, u32))
    requires
        1 <= side,
        p < side * side,
    ensures
        (r.0 as int, r.1 as int) == coords_of(p as int, side as int),
        r.0 < side,
        r.1 < side,
{
    proof {
        lemma_pixel_of_coords_of(p as int, side as int);
    }
    (p % side, p / side)
}

/// Number of unordered pairs of distinct nails among `n` nails; the
/// triangular number of `n - 1`.
pub open spec fn pair_count(n: int) -> int
    decreases n,
{
    if n <= 1 {
        0
    } else {
        pair_count(n - 1) + (n - 1)
    }
}

/// Position of the unordered pair `(a, b)`, `a < b < n`, in the pair array:
/// all pairs whose smaller nail is below `a` come first, then the pairs
/// `(a, a + 1), ..., (a, b)`.
pub open spec fn pair_index(a: int, b: int, n: int) -> int {
    row_base(a, n) + (b - a - 1)
}

/// Position at which the pairs whose smaller nail is exactly `a` begin.
pub open spec fn row_base(a: int, n: int) -> int {
    pair_count(n) - pair_count(n - a)
}

/// `pair_count` agrees with the closed form `n * (n - 1) / 2`.
pub proof fn lemma_pair_count_closed(n: int)
    requires
        n >= 0,
    ensures
        pair_count(n) == n * (n - 1) / 2,
    decreases n,
{
    if n <= 1 {
        assert(n * (n - 1) == 0) by (nonlinear_arith)
            requires
                0 <= n <= 1,
        ;
    } else {
        lemma_pair_count_closed(n - 1);
        assert(n * (n - 1) == 2 * (n - 1) + (n - 1) * (n - 2)) by (nonlinear_arith);
        lemma_consecutive_product_even(n - 1);
        lemma_even_halves(n - 1, (n - 1) * (n - 2));
    }
}

/// The product of two consecutive integers is even.
proof fn lemma_consecutive_product_even(m: int)
    ensures
        (m * (m - 1)) % 2 == 0,
{
    lemma_fundamental_div_mod(m, 2);
    let q = m / 2;
    if m % 2 == 0 {
        assert(m * (m - 1) == (q * (m - 1)) * 2) by (nonlinear_arith)
            requires
                m == 2 * q,
        ;
        vstd::arithmetic::div_mod::lemma_mod_multiples_basic(q * (m - 1), 2);
    } else {
        assert(m * (m - 1) == (m * q) * 2) by (nonlinear_arith)
            requires
                m == 2 * q + 1,
        ;
        vstd::arithmetic::div_mod::lemma_mod_multiples_basic(m * q, 2);
    }
}

/// For even `x == 2 * h`, dividing `x + 2 * c` by two adds `c` to `h`.
proof fn lemma_even_halves(c: int, x: int)
    requires
        x % 2 == 0,
    ensures
        (2 * c + x) / 2 == c + x / 2,
{
    lemma_fundamental_div_mod(x, 2);
    let h = x / 2;
    assert(2 * c + x == (c + h) * 2 + 0) by (nonlinear_arith)
        requires
            x == 2 * h,
    ;
    lemma_fundamental_div_mod_converse_div(2 * c + x, 2, c + h, 0);
}

/// `pair_count` never goes negative.
pub proof fn lemma_pair_count_nonneg(n: int)
    ensures
        pair_count(n) >= 0,
    decreases n,
{
    if n > 1 {
        lemma_pair_count_nonneg(n - 1);
    }
}

/// `pair_count` is monotonic.
pub proof fn lemma_pair_count_mono(m: int, n: int)
    requires
        m <= n,
    ensures
        pair_count(m) <= pair_count(n),
    decreases n - m,
{
    if m < n {
        lemma_pair_count_mono(m, n - 1);
    }
}

/// Row bases are monotonic in the row's smaller nail.
pub proof fn lemma_row_base_mono(a1: int, a2: int, n: int)
    requires
        a1 <= a2,
    ensures
        row_base(a1, n) <= row_base(a2, n),
{
    lemma_pair_count_mono(n - a2, n - a1);
}

/// Each row starts right after the previous one ends: row `a` holds the
/// `n - a - 1` pairs `(a, a + 1), ..., (a, n - 1)`.
pub proof fn lemma_row_base_step(a: int, n: int)
    requires
        0 <= a <= n - 2,
    ensures
        row_base(a + 1, n) == row_base(a, n) + (n - a - 1),
{
    assert(pair_count(n - a) == pair_count(n - a - 1) + (n - a - 1));
}

/// A valid pair's position lies inside its row.
pub proof fn lemma_pair_index_in_row(a: int, b: int, n: int)
    requires
        0 <= a < b < n,
    ensures
        row_base(a, n) <= pair_index(a, b, n) < row_base(a + 1, n),
        0 <= pair_index(a, b, n) < pair_count(n),
{
    lemma_row_base_step(a, n);
    lemma_pair_count_mono(n - a, n);
    lemma_pair_count_nonneg(n - a);
    // The last row base equals the total pair count, and later rows only
    // start later, so the position stays below the total.
    lemma_row_base_mono(a + 1, n - 1, n);
    assert(pair_count(1) == 0);
    assert(row_base(n - 1, n) == pair_count(n));
}

/// Positions are strictly ordered by the pair, lexicographically.
pub proof fn lemma_pair_index_lt(a1: int, b1: int, a2: int, b2: int, n: int)
    requires
        0 <= a1 < b1 < n,
        0 <= a2 < b2 < n,
        a1 < a2 || (a1 == a2 && b1 < b2),
    ensures
        pair_index(a1, b1, n) < pair_index(a2, b2, n),
{
    if a1 < a2 {
        lemma_pair_index_in_row(a1, b1, n);
        lemma_pair_index_in_row(a2, b2, n);
        lemma_row_base_mono(a1 + 1, a2, n);
    }
}

/// No two distinct valid pairs share a position.
pub proof fn lemma_pair_index_injective(a1: int, b1: int, a2: int, b2: int, n: int)
    requires
        0 <= a1 < b1 < n,
        0 <= a2 < b2 < n,
        pair_index(a1, b1, n) == pair_index(a2, b2, n),
    ensures
        a1 == a2 && b1 == b2,
{
    if a1 < a2 || (a1 == a2 && b1 < b2) {
        lemma_pair_index_lt(a1, b1, a2, b2, n);
    } else if a2 < a1 || (a1 == a2 && b2 < b1) {
        lemma_pair_index_lt(a2, b2, a1, b1, n);
    }
}

/// Position of the unordered nail pair `(a, b)` in the pair array, by the
/// closed-form triangular-number offset.
pub fn from_nails_to_index(a: u64, b: u64, n: u64) -> (k: u64)
    requires
        a < b < n,
        n <= 0x1_0000,
    ensures
        k == pair_index(a as int, b as int, n as int),
        k < pair_count(n as int),
{
    proof {
        lemma_pair_count_closed(n as int);
        lemma_pair_count_closed(n as int - a as int);
        lemma_pair_count_nonneg(n as int - a as int);
        lemma_pair_count_mono(n as int - a as int, n as int);
        lemma_pair_index_in_row(a as int, b as int, n as int);
        assert(n * (n - 1) <= 0x1_0000 * 0xffff) by (nonlinear_arith)
            requires
                n <= 0x1_0000,
        ;
        assert((n - a) * (n - a - 1) <= n * (n - 1)) by (nonlinear_arith)
            requires
                0 <= a < n,
        ;
    }
    n * (n - 1) / 2 - (n - a) * (n - a - 1) / 2 + (b - a - 1)
}

/// Inverse of [`from_nails_to_index`]: the unordered nail pair sitting at
/// position `k` of the pair array, found by walking the triangular row
/// boundaries.
pub fn from_index_to_nails(k: u64, n: u64) -> (r: (u64, u64))
    requires
        n <= 0x1_0000,
        k < pair_count(n as int),
    ensures
        r.0 < r.1 < n,
        pair_index(r.0 as int, r.1 as int, n as int) == k,
{
    proof {
        lemma_pair_count_nonneg(n as int);
        if n < 2 {
            assert(pair_count(n as int) == 0);
        }
    }
    let mut a: u64 = 0;
    let mut rem: u64 = k;
    while rem >= n - a - 1
        invariant
            0 <= a <= n - 2,
            n <= 0x1_0000,
            k < pair_count(n as int),
            rem == k - row_base(a as int, n as int),
            row_base(a as int, n as int) <= k,
        decreases n - a,
    {
        proof {
            lemma_row_base_step(a as int, n as int);
            if a as int == n - 2 {
                // The final row holds exactly one pair, so the loop cannot
                // step past it.
                lemma_row_base_mono(a as int + 1, n - 1, n as int);
                assert(pair_count(1) == 0);
                assert(row_base(n - 1, n as int) == pair_count(n as int));
            }
        }
        rem = rem - (n - a - 1);
        a = a + 1;
    }
    proof {
        lemma_pair_index_in_row(a as int, (a + 1 + rem) as int, n as int);
    }
    (a, a + 1 + rem)
}

/// The pair-index mapping is a bijection: recovering the nails of the
/// position of a valid pair `(a, b)` yields `(a, b)` again, and every
/// position below the pair count is the position of exactly one valid pair.
pub proof fn lemma_pair_bijection(a: int, b: int, n: int)
    requires
        0 <= a < b < n,
    ensures
        0 <= pair_index(a, b, n) < pair_count(n),
        forall|a2: int, b2: int|
            0 <= a2 < b2 < n && pair_index(a2, b2, n) == pair_index(a, b, n) ==> a2 == a && b2
                == b,
{
    lemma_pair_index_in_row(a, b, n);
    assert forall|a2: int, b2: int|
        0 <= a2 < b2 < n && pair_index(a2, b2, n) == pair_index(a, b, n) implies a2 == a && b2
        == b by {
        lemma_pair_index_injective(a2, b2, a, b, n);
    }
}

} // verus!
