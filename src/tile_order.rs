//! Facts about the Z-order placement of tiles: where indices land and that none collide.
use crate::texture_decode::{
    even_bits, is_power_of_two, min_side, morton_addressable, morton_position, Position,
};
use crate::ImageSize;
use vstd::arithmetic::div_mod::{lemma_fundamental_div_mod, lemma_fundamental_div_mod_converse};
use vstd::arithmetic::power2::{lemma_pow2_adds, lemma_pow2_pos, pow2};
use vstd::bits::{
    lemma_u32_low_bits_mask_is_mod, lemma_u32_pow2_no_overflow, lemma_u32_shl_is_mul,
};
use vstd::prelude::*;
use vstd::std_specs::bits::axiom_u32_trailing_zeros;

verus! {

/// The longer side of a grid.
pub open spec fn max_side(size: ImageSize) -> u32 {
    if size.width < size.height {
        size.height
    } else {
        size.width
    }
}

/// A grid that Z-order covers exactly: addressable, and its longer side a whole number of
/// squares of the shorter side.
pub open spec fn tile_grid_ok(size: ImageSize) -> bool {
    morton_addressable(size) && max_side(size) % min_side(size) == 0
}

/// Whether Z-order covers the grid `size` exactly.
pub fn tile_grid_fits(size: ImageSize) -> (r: bool)
    ensures
        r == tile_grid_ok(size),
{
    let (short, long) = if size.width < size.height {
        (size.width, size.height)
    } else {
        (size.height, size.width)
    };
    if short == 0 || short & (short - 1) != 0 {
        return false;
    }
    assert(size.width * size.height <= u64::MAX) by (nonlinear_arith)
        requires
            size.width <= u32::MAX,
            size.height <= u32::MAX,
    ;
    if size.width as u64 * size.height as u64 > u32::MAX as u64 {
        return false;
    }
    long % short == 0
}

proof fn lemma_single_bit_exp(m: u32) -> (b: u32)
    requires
        is_power_of_two(m),
    ensures
        b == m.trailing_zeros(),
        b < 32,
        m == 1u32 << b,
        m as nat == pow2(b as nat),
{
    let b = m.trailing_zeros();
    axiom_u32_trailing_zeros(m);
    assert(m == 1u32 << b) by (bit_vector)
        requires
            m > 0,
            m & ((m - 1) as u32) == 0,
            b < 32,
            (m >> b) & 1u32 == 1u32,
            m << ((32 - b) as u32) == 0,
    ;
    lemma_u32_pow2_no_overflow(b as nat);
    lemma_u32_shl_is_mul(1, b);
    b
}

pub(crate) proof fn lemma_mask_is_mod(x: u32, b: u32)
    requires
        b < 32,
    ensures
        x & (((1u32 << b) - 1) as u32) == x % (1u32 << b),
{
    lemma_u32_pow2_no_overflow(b as nat);
    lemma_pow2_pos(b as nat);
    lemma_u32_shl_is_mul(1, b);
    lemma_u32_low_bits_mask_is_mod(x, b as nat);
}

proof fn lemma_even_odd_bits_fix_low_bits(t1: u32, t2: u32, b: u32)
    by (bit_vector)
    requires
        b < 16,
        even_bits(t1) & (((1u32 << b) - 1) as u32) == even_bits(t2) & (((1u32 << b) - 1) as u32),
        even_bits(t1 >> 1u32) & (((1u32 << b) - 1) as u32) == even_bits(t2 >> 1u32) & (((1u32
            << b) - 1) as u32),
    ensures
        t1 & (((1u32 << ((2 * b) as u32)) - 1) as u32) == t2 & (((1u32 << ((2 * b) as u32))
            - 1) as u32),
{
}

/// The exponent of the shorter side of an addressable grid, and the bounds that follow
/// from its tile count fitting in a `u32`.
pub(crate) proof fn lemma_grid_shape(size: ImageSize) -> (b: u32)
    requires
        morton_addressable(size),
    ensures
        b == min_side(size).trailing_zeros(),
        b < 16,
        min_side(size) == 1u32 << b,
        min_side(size) as nat == pow2(b as nat),
        (min_side(size) * min_side(size)) as nat == pow2((2 * b) as nat),
        1u32 << ((2 * b) as u32) == min_side(size) * min_side(size),
{
    let m = min_side(size);
    let b = lemma_single_bit_exp(m);
    assert(m * m <= size.width * size.height) by (nonlinear_arith)
        requires
            m <= size.width,
            m <= size.height,
    ;
    assert(b < 16) by (bit_vector)
        requires
            m == 1u32 << b,
            m * m <= u32::MAX,
            b < 32,
    ;
    lemma_pow2_adds(b as nat, b as nat);
    lemma_u32_pow2_no_overflow((2 * b) as nat);
    lemma_u32_shl_is_mul(1, (2 * b) as u32);
    b
}

/// Every index below the tile count lands inside the grid, at the position that the
/// square index and the two interleaved coordinates give.
pub proof fn lemma_morton_in_grid(t: u32, size: ImageSize)
    requires
        tile_grid_ok(size),
        t < size.width * size.height,
    ensures
        morton_position(t, size).x < size.width,
        morton_position(t, size).y < size.height,
        size.height < size.width ==> (t as int / (min_side(size) * min_side(size))) * min_side(
            size,
        ) + even_bits(t >> 1u32) as int % (min_side(size) as int) < size.width,
        !(size.height < size.width) ==> (t as int / (min_side(size) * min_side(size)))
            * min_side(size) + even_bits(t) as int % (min_side(size) as int) < size.height,
{
    let m = min_side(size) as int;
    let b = lemma_grid_shape(size);
    let q = t as int / (m * m);
    let ex = even_bits(t) as int % m;
    let od = even_bits(t >> 1u32) as int % m;
    let c = max_side(size) as int / m;
    assert(m * m > 0) by (nonlinear_arith)
        requires
            m > 0,
    ;
    lemma_fundamental_div_mod(max_side(size) as int, m);
    lemma_fundamental_div_mod(t as int, m * m);
    assert(size.width * size.height == c * (m * m)) by (nonlinear_arith)
        requires
            max_side(size) == m * c,
            m == min_side(size),
            (m == size.width && max_side(size) == size.height) || (m == size.height
                && max_side(size) == size.width),
    ;
    assert(q < c) by (nonlinear_arith)
        requires
            t == (m * m) * q + t as int % (m * m),
            t as int % (m * m) >= 0,
            t < c * (m * m),
            m * m > 0,
    ;
    assert(q * m + m <= c * m) by (nonlinear_arith)
        requires
            q < c,
            m > 0,
    ;
    assert(ex < m && od < m);
}

/// Two indices below the tile count that land on the same tile are the same index.
pub proof fn lemma_morton_injective(t1: u32, t2: u32, size: ImageSize)
    requires
        tile_grid_ok(size),
        t1 < size.width * size.height,
        t2 < size.width * size.height,
        morton_position(t1, size) == morton_position(t2, size),
    ensures
        t1 == t2,
{
    let m = min_side(size) as int;
    let b = lemma_grid_shape(size);
    lemma_morton_in_grid(t1, size);
    lemma_morton_in_grid(t2, size);
    assert(m * m > 0) by (nonlinear_arith)
        requires
            m > 0,
    ;
    let q1 = t1 as int / (m * m);
    let q2 = t2 as int / (m * m);
    let e1 = even_bits(t1) as int % m;
    let e2 = even_bits(t2) as int % m;
    let o1 = even_bits(t1 >> 1u32) as int % m;
    let o2 = even_bits(t2 >> 1u32) as int % m;
    assert(0 <= q1 * m + e1 && 0 <= q2 * m + e2 && 0 <= q1 * m + o1 && 0 <= q2 * m + o2)
        by (nonlinear_arith)
        requires
            q1 >= 0,
            q2 >= 0,
            m > 0,
            0 <= e1,
            0 <= e2,
            0 <= o1,
            0 <= o2,
    ;
    if size.height < size.width {
        assert(q1 * m + o1 == q2 * m + o2);
        assert(e1 == e2);
        lemma_fundamental_div_mod_converse(q1 * m + o1, m, q1, o1);
        lemma_fundamental_div_mod_converse(q1 * m + o1, m, q2, o2);
    } else {
        assert(q1 * m + e1 == q2 * m + e2);
        assert(o1 == o2);
        lemma_fundamental_div_mod_converse(q1 * m + e1, m, q1, e1);
        lemma_fundamental_div_mod_converse(q1 * m + e1, m, q2, e2);
    }
    lemma_mask_is_mod(even_bits(t1), b);
    lemma_mask_is_mod(even_bits(t2), b);
    lemma_mask_is_mod(even_bits(t1 >> 1u32), b);
    lemma_mask_is_mod(even_bits(t2 >> 1u32), b);
    lemma_even_odd_bits_fix_low_bits(t1, t2, b);
    lemma_mask_is_mod(t1, (2 * b) as u32);
    lemma_mask_is_mod(t2, (2 * b) as u32);
    lemma_fundamental_div_mod(t1 as int, m * m);
    lemma_fundamental_div_mod(t2 as int, m * m);
}

/// Spreads the low 16 bits of `v` to the even bit positions: bit k goes to bit 2k.
spec fn spread_bits(v: u32) -> u32 {
    let x0 = v & 0xffffu32;
    let x1 = (x0 | (x0 << 8u32)) & 0x00ff_00ffu32;
    let x2 = (x1 | (x1 << 4u32)) & 0x0f0f_0f0fu32;
    let x3 = (x2 | (x2 << 2u32)) & 0x3333_3333u32;
    (x3 | (x3 << 1u32)) & 0x5555_5555u32
}

proof fn lemma_interleave_below_square(ex: u32, od: u32, b: u32)
    by (bit_vector)
    requires
        b < 16,
        ex < (1u32 << b),
        od < (1u32 << b),
    ensures
        (spread_bits(ex) | (spread_bits(od) << 1u32)) < (1u32 << ((2 * b) as u32)),
{
}

proof fn lemma_interleave_recovered(t: u32, ex: u32, od: u32, b: u32)
    by (bit_vector)
    requires
        b < 16,
        ex < (1u32 << b),
        od < (1u32 << b),
        t & (((1u32 << ((2 * b) as u32)) - 1) as u32) == spread_bits(ex) | (spread_bits(od)
            << 1u32),
    ensures
        even_bits(t) & (((1u32 << b) - 1) as u32) == ex,
        even_bits(t >> 1u32) & (((1u32 << b) - 1) as u32) == od,
{
}

/// The index that lands on the tile square `q` (counted along the longer side) with
/// interleaved coordinates `ex` and `od`.
proof fn lemma_index_for(q: int, ex: u32, od: u32, size: ImageSize) -> (t: u32)
    requires
        tile_grid_ok(size),
        0 <= q,
        q * min_side(size) < max_side(size),
        ex < min_side(size),
        od < min_side(size),
    ensures
        t < size.width * size.height,
        t as int / (min_side(size) * min_side(size)) == q,
        even_bits(t) as int % (min_side(size) as int) == ex,
        even_bits(t >> 1u32) as int % (min_side(size) as int) == od,
{
    let m = min_side(size) as int;
    let b = lemma_grid_shape(size);
    let c = max_side(size) as int / m;
    lemma_fundamental_div_mod(max_side(size) as int, m);
    assert(size.width * size.height == c * (m * m)) by (nonlinear_arith)
        requires
            max_side(size) == m * c,
            m == min_side(size),
            (m == size.width && max_side(size) == size.height) || (m == size.height
                && max_side(size) == size.width),
    ;
    assert(q < c) by (nonlinear_arith)
        requires
            q * m < m * c,
            m > 0,
    ;
    lemma_interleave_below_square(ex, od, b);
    let r = spread_bits(ex) | (spread_bits(od) << 1u32);
    let tt = q * (m * m) + r;
    assert(0 <= tt < c * (m * m)) by (nonlinear_arith)
        requires
            0 <= q < c,
            0 <= r < m * m,
            tt == q * (m * m) + r,
    ;
    let t = tt as u32;
    assert(m * m > 0) by (nonlinear_arith)
        requires
            m > 0,
    ;
    lemma_fundamental_div_mod_converse(t as int, m * m, q, r as int);
    lemma_mask_is_mod(t, (2 * b) as u32);
    lemma_interleave_recovered(t, ex, od, b);
    lemma_mask_is_mod(even_bits(t), b);
    lemma_mask_is_mod(even_bits(t >> 1u32), b);
    t
}

/// Every tile of the grid is reached by some index below the tile count.
pub proof fn lemma_morton_reaches(x: u32, y: u32, size: ImageSize) -> (t: u32)
    requires
        tile_grid_ok(size),
        x < size.width,
        y < size.height,
    ensures
        t < size.width * size.height,
        morton_position(t, size) == (Position { x, y }),
{
    let m = min_side(size) as int;
    lemma_fundamental_div_mod(x as int, m);
    lemma_fundamental_div_mod(y as int, m);
    if size.height < size.width {
        let q = x as int / m;
        assert(q * m <= x) by (nonlinear_arith)
            requires
                x == m * q + x as int % m,
                x as int % m >= 0,
        ;
        let t = lemma_index_for(q, y, (x as int % m) as u32, size);
        assert(q * m + x as int % m == x) by (nonlinear_arith)
            requires
                x == m * q + x as int % m,
        ;
        assert(y < m);
        assert(morton_position(t, size).x == x);
        assert(morton_position(t, size).y == y);
        t
    } else {
        let q = y as int / m;
        assert(q * m <= y) by (nonlinear_arith)
            requires
                y == m * q + y as int % m,
                y as int % m >= 0,
        ;
        let t = lemma_index_for(q, (y as int % m) as u32, x, size);
        assert(q * m + y as int % m == y) by (nonlinear_arith)
            requires
                y == m * q + y as int % m,
        ;
        assert(x < m);
        assert(morton_position(t, size).x == x);
        assert(morton_position(t, size).y == y);
        t
    }
}

/// Some index below the tile count lands on the tile `p`.
pub open spec fn reached(size: ImageSize, p: Position) -> bool {
    exists|t: u32| t < size.width * size.height && #[trigger] morton_position(t, size) == p
}

/// Z-order placement is a bijection from the indices below the tile count onto the tiles of
/// the grid: each index lands inside the grid, no two indices land on the same tile, and
/// every tile is reached.
pub proof fn lemma_morton_bijection(size: ImageSize)
    requires
        tile_grid_ok(size),
    ensures
        forall|t: u32|
            t < size.width * size.height ==> #[trigger] morton_position(t, size).x < size.width
                && morton_position(t, size).y < size.height,
        forall|t1: u32, t2: u32|
            t1 < size.width * size.height && t2 < size.width * size.height && #[trigger]
                morton_position(t1, size) == #[trigger] morton_position(t2, size) ==> t1 == t2,
        forall|p: Position| p.x < size.width && p.y < size.height ==> #[trigger] reached(size, p),
{
    assert forall|t: u32| t < size.width * size.height implies #[trigger] morton_position(
        t,
        size,
    ).x < size.width && morton_position(t, size).y < size.height by {
        lemma_morton_in_grid(t, size);
    }
    assert forall|t1: u32, t2: u32|
        t1 < size.width * size.height && t2 < size.width * size.height && #[trigger]
            morton_position(t1, size) == #[trigger] morton_position(t2, size) implies t1
        == t2 by {
        lemma_morton_injective(t1, t2, size);
    }
    assert forall|p: Position| p.x < size.width && p.y < size.height implies #[trigger] reached(
        size,
        p,
    ) by {
        let t = lemma_morton_reaches(p.x, p.y, size);
    }
}

} // verus!
