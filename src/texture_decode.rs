//! BC1 (DXT1) block decompression and the Z-order placement of compressed tiles.
use crate::error::TIDError;
use crate::wire::{le_u16, le_u32, read_u16_le, read_u32_le};
use crate::tile_order::{lemma_grid_shape, lemma_mask_is_mod};
use crate::ImageSize;
use vstd::arithmetic::div_mod::{lemma_fundamental_div_mod, lemma_fundamental_div_mod_converse};
use vstd::arithmetic::power2::{lemma_pow2_adds, lemma_pow2_pos, pow2};
use vstd::bits::{lemma_u32_pow2_no_overflow, lemma_u32_shl_is_mul, lemma_u32_shr_is_div};
use vstd::prelude::*;

verus! {

/// One pixel with 8-bit red, green, blue and alpha channels.
#[derive(Debug, Clone, Copy, PartialEq, Eq, Structural)]
pub struct Pixel {
    pub r: u8,
    pub g: u8,
    pub b: u8,
    pub a: u8,
}

/// A tile position in a grid of tiles.
#[derive(Debug, Clone, Copy, PartialEq, Eq, Structural)]
pub struct Position {
    pub x: u32,
    pub y: u32,
}

/// A 5-bit channel widened to 8 bits: its high bits repeat into the low bits.
pub open spec fn expand5(v: int) -> int {
    v * 8 + v / 4
}

/// A 6-bit channel widened to 8 bits: its high bits repeat into the low bits.
pub open spec fn expand6(v: int) -> int {
    v * 4 + v / 16
}

/// The opaque colour of a packed 5:6:5 value (red in bits 15..11, green 10..5, blue 4..0).
pub open spec fn color_565(c: u16) -> Pixel {
    Pixel {
        r: expand5(c as int / 2048) as u8,
        g: expand6((c as int / 32) % 64) as u8,
        b: expand5(c as int % 32) as u8,
        a: 0xff,
    }
}

/// Entry `k` of the four-colour palette of a block with endpoints `c0` and `c1`.
pub open spec fn palette_entry(c0: u16, c1: u16, k: int) -> Pixel {
    let p0 = color_565(c0);
    let p1 = color_565(c1);
    if k == 0 {
        p0
    } else if k == 1 {
        p1
    } else if c0 > c1 {
        if k == 2 {
            Pixel {
                r: ((2 * p0.r + p1.r) / 3) as u8,
                g: ((2 * p0.g + p1.g) / 3) as u8,
                b: ((2 * p0.b + p1.b) / 3) as u8,
                a: 0xff,
            }
        } else {
            Pixel {
                r: ((p0.r + 2 * p1.r) / 3) as u8,
                g: ((p0.g + 2 * p1.g) / 3) as u8,
                b: ((p0.b + 2 * p1.b) / 3) as u8,
                a: 0xff,
            }
        }
    } else if k == 2 {
        Pixel {
            r: ((p0.r + p1.r) / 2) as u8,
            g: ((p0.g + p1.g) / 2) as u8,
            b: ((p0.b + p1.b) / 2) as u8,
            a: 0xff,
        }
    } else {
        Pixel { r: 0, g: 0, b: 0, a: 0 }
    }
}

/// The 2-bit palette index of pixel `n` in a block's index table, least significant first.
pub open spec fn lut_index(lut: u32, n: int) -> int {
    ((lut >> (2 * n) as u32) & 3u32) as int
}

/// Pixel `n` (row-major, 0..16) of the tile that the 8-byte block `block` encodes.
pub open spec fn bc1_pixel(block: Seq<u8>, n: int) -> Pixel {
    palette_entry(
        le_u16(block, 0) as u16,
        le_u16(block, 2) as u16,
        lut_index(le_u32(block, 4) as u32, n),
    )
}

/// Decoding a block depends on its eight bytes alone: two inputs that agree on them decode
/// to the same tile, pixel for pixel.
pub proof fn lemma_decode_block_deterministic(a: Seq<u8>, b: Seq<u8>)
    requires
        a.len() >= 8,
        b.len() >= 8,
        a.subrange(0, 8) == b.subrange(0, 8),
    ensures
        forall|n: int| 0 <= n < 16 ==> #[trigger] bc1_pixel(a, n) == bc1_pixel(b, n),
{
    assert forall|k: int| 0 <= k < 8 implies a[k] == b[k] by {
        assert(a[k] == a.subrange(0, 8)[k]);
        assert(b[k] == b.subrange(0, 8)[k]);
    }
}

fn decode_565(color: u16) -> (r: Pixel)
    ensures
        r == color_565(color),
{
    let r5: u16 = (color & 0xf800) >> 8;
    let r8: u16 = r5 | (r5 >> 5);
    let g6: u16 = (color & 0x7e0) >> 3;
    let g8: u16 = g6 | (g6 >> 6);
    let b5: u16 = (color & 0x1f) << 3;
    let b8: u16 = b5 | (b5 >> 5);
    assert(r8 == expand5(color as int / 2048) && r8 < 256) by (bit_vector)
        requires
            r5 == (color & 0xf800) >> 8,
            r8 == r5 | (r5 >> 5),
    ;
    assert(g8 == expand6((color as int / 32) % 64) && g8 < 256) by (bit_vector)
        requires
            g6 == (color & 0x7e0) >> 3,
            g8 == g6 | (g6 >> 6),
    ;
    assert(b8 == expand5(color as int % 32) && b8 < 256) by (bit_vector)
        requires
            b5 == (color & 0x1f) << 3,
            b8 == b5 | (b5 >> 5),
    ;
    Pixel { r: r8 as u8, g: g8 as u8, b: b8 as u8, a: 0xff }
}

fn mix(a: u8, b: u8, wa: u16, wb: u16, d: u16) -> (r: u8)
    requires
        wa <= 2,
        wb <= 2,
        wa + wb == d,
        d > 0,
    ensures
        r == ((wa * a + wb * b) / (d as int)) as u8,
{
    assert(wa * a <= 2 * 255) by (nonlinear_arith)
        requires
            wa <= 2,
            a <= 255,
    ;
    assert(wb * b <= 2 * 255) by (nonlinear_arith)
        requires
            wb <= 2,
            b <= 255,
    ;
    let sum: u16 = wa * a as u16 + wb * b as u16;
    assert(sum <= d * 255) by (nonlinear_arith)
        requires
            sum == wa * a + wb * b,
            wa + wb == d,
            a <= 255,
            b <= 255,
    ;
    assert(sum / d <= 255) by (nonlinear_arith)
        requires
            sum <= d * 255,
            d > 0,
    ;
    (sum / d) as u8
}

/// Decompresses one 8-byte BC1 block, read from the start of `bytes`, into its 4x4 tile.
pub fn decode_bc1_block(bytes: &[u8]) -> (r: Result<[Pixel; 16], TIDError>)
    ensures
        bytes@.len() < 8 ==> r == Err::<[Pixel; 16], TIDError>(
            TIDError::IO { available: bytes@.len() as usize },
        ),
        bytes@.len() >= 8 ==> (r matches Ok(tile) && forall|n: int|
            0 <= n < 16 ==> #[trigger] tile@[n] == bc1_pixel(bytes@, n)),
{
    if bytes.len() < 8 {
        return Err(TIDError::IO { available: bytes.len() });
    }
    let c0 = read_u16_le(bytes, 0);
    let c1 = read_u16_le(bytes, 2);
    let lut = read_u32_le(bytes, 4);
    let p0 = decode_565(c0);
    let p1 = decode_565(c1);
    let (p2, p3) = if c0 > c1 {
        (
            Pixel { r: mix(p0.r, p1.r, 2, 1, 3), g: mix(p0.g, p1.g, 2, 1, 3), b: mix(p0.b, p1.b, 2, 1, 3), a: 0xff },
            Pixel { r: mix(p0.r, p1.r, 1, 2, 3), g: mix(p0.g, p1.g, 1, 2, 3), b: mix(p0.b, p1.b, 1, 2, 3), a: 0xff },
        )
    } else {
        (
            Pixel { r: mix(p0.r, p1.r, 1, 1, 2), g: mix(p0.g, p1.g, 1, 1, 2), b: mix(p0.b, p1.b, 1, 1, 2), a: 0xff },
            Pixel { r: 0, g: 0, b: 0, a: 0 },
        )
    };
    let palette: [Pixel; 4] = [p0, p1, p2, p3];
    assert(forall|k: int| 0 <= k < 4 ==> #[trigger] palette@[k] == palette_entry(c0, c1, k));
    let mut out: [Pixel; 16] = [p3; 16];
    let mut n: usize = 0;
    while n < 16
        invariant
            n <= 16,
            c0 == le_u16(bytes@, 0),
            c1 == le_u16(bytes@, 2),
            lut == le_u32(bytes@, 4),
            forall|k: int| 0 <= k < 4 ==> #[trigger] palette@[k] == palette_entry(c0, c1, k),
            forall|m: int| 0 <= m < n ==> #[trigger] out@[m] == bc1_pixel(bytes@, m),
        decreases 16 - n,
    {
        let shift: u32 = 2 * n as u32;
        let cw: u32 = (lut >> shift) & 3;
        assert(cw < 4) by (bit_vector)
            requires
                cw == (lut >> shift) & 3,
        ;
        out.set(n, palette[cw as usize]);
        n += 1;
    }
    Ok(out)
}

/// Gathers the even bits of `v`: bit k of the result is bit 2k of `v` (k < 16), and the
/// upper half of the result is zero.
pub open spec fn even_bits(v: u32) -> u32 {
    let x0 = v & 0x5555_5555u32;
    let x1 = (x0 ^ (x0 >> 1u32)) & 0x3333_3333u32;
    let x2 = (x1 ^ (x1 >> 2u32)) & 0x0f0f_0f0fu32;
    let x3 = (x2 ^ (x2 >> 4u32)) & 0x00ff_00ffu32;
    (x3 ^ (x3 >> 8u32)) & 0x0000_ffffu32
}

/// A positive value with a single bit set.
pub open spec fn is_power_of_two(m: u32) -> bool {
    m > 0 && m & ((m - 1) as u32) == 0
}

/// The shorter side of a grid.
pub open spec fn min_side(size: ImageSize) -> u32 {
    if size.width < size.height {
        size.width
    } else {
        size.height
    }
}

/// Where tile `i` of a grid goes. Tiles are stored in Z-order within squares of side
/// `m = min_side(size)`: the low bits of `i` interleave two coordinates within a square,
/// and `i / (m * m)` counts the squares laid out along the longer side.
pub open spec fn morton_position(i: u32, size: ImageSize) -> Position {
    let m = min_side(size) as int;
    let square = i as int / (m * m);
    let ex = even_bits(i) as int % m;
    let od = even_bits(i >> 1u32) as int % m;
    if size.height < size.width {
        Position { x: (square * m + od) as u32, y: ex as u32 }
    } else {
        Position { x: od as u32, y: (square * m + ex) as u32 }
    }
}

/// Whether a grid of tiles can be addressed by Z-order: its shorter side is a power of
/// two and its tile count fits in a `u32`.
pub open spec fn morton_addressable(size: ImageSize) -> bool {
    is_power_of_two(min_side(size)) && size.width * size.height <= u32::MAX
}

proof fn lemma_disjoint_or(i: u32, hi: u32, lo: u32, b: u32)
    by (bit_vector)
    requires
        b < 16,
        hi < (1u32 << b),
        lo < (1u32 << b),
    ensures
        ((i >> ((2 * b) as u32)) << ((2 * b) as u32) | (hi << b) | lo) as int == ((i >> ((2
            * b) as u32)) << ((2 * b) as u32)) + (hi << b) + lo,
{
}

/// Splits the word assembled from the square index of `i` and two coordinates `hi`, `lo`
/// below `2^b` into a quotient and a remainder by `2^b`.
proof fn lemma_join(i: u32, hi: u32, lo: u32, b: u32)
    requires
        b < 16,
        hi < (1u32 << b),
        lo < (1u32 << b),
    ensures
        ({
            let m = (1u32 << b) as int;
            let j = ((i >> ((2 * b) as u32)) << ((2 * b) as u32) | (hi << b) | lo) as int;
            j / m == (i as int / (m * m)) * m + hi && j % m == lo
        }),
{
    let b2 = (2 * b) as u32;
    lemma_u32_pow2_no_overflow(b as nat);
    lemma_u32_pow2_no_overflow(b2 as nat);
    lemma_pow2_pos(b as nat);
    lemma_u32_shl_is_mul(1, b);
    let m = pow2(b as nat) as int;
    lemma_pow2_adds(b as nat, b as nat);
    assert(pow2(b2 as nat) == m * m);
    lemma_u32_shr_is_div(i, b2);
    let q = i as int / (m * m);
    assert(m * m > 0) by (nonlinear_arith)
        requires
            m > 0,
    ;
    lemma_fundamental_div_mod(i as int, m * m);
    assert(q * (m * m) <= i) by (nonlinear_arith)
        requires
            q == i as int / (m * m),
            m * m > 0,
            i as int == (m * m) * q + i as int % (m * m),
            i as int % (m * m) >= 0,
    ;
    lemma_u32_shl_is_mul(i >> b2, b2);
    assert(hi * m < m * m) by (nonlinear_arith)
        requires
            hi < m,
            m > 0,
    ;
    lemma_u32_shl_is_mul(hi, b);
    lemma_disjoint_or(i, hi, lo, b);
    let j = ((i >> b2) << b2 | (hi << b) | lo) as int;
    assert(j == (q * m + hi) * m + lo) by (nonlinear_arith)
        requires
            j == q * (m * m) + hi * m + lo,
    ;
    lemma_fundamental_div_mod_converse(j, m, q * m + hi, lo as int);
}

/// Where tile `pixel_index` of a grid of `size` tiles goes, when tiles are stored in Z-order.
pub fn morton_order(pixel_index: u32, size: ImageSize) -> (r: Position)
    requires
        morton_addressable(size),
    ensures
        r == morton_position(pixel_index, size),
{
    let width_height_min = if size.width < size.height {
        size.width
    } else {
        size.height
    };
    let nb_bits = width_height_min.trailing_zeros();
    proof {
        lemma_grid_shape(size);
    }
    let mask: u32 = width_height_min - 1;
    let ex = decode_morton_2x(pixel_index) & mask;
    let od = decode_morton_2y(pixel_index) & mask;
    proof {
        lemma_mask_is_mod(even_bits(pixel_index), nb_bits);
        lemma_mask_is_mod(even_bits(pixel_index >> 1u32), nb_bits);
    }
    if size.height < size.width {
        let j = pixel_index >> (2 * nb_bits) << (2 * nb_bits) | od << nb_bits | ex;
        proof {
            lemma_join(pixel_index, od, ex, nb_bits);
        }
        Position { x: j / size.height, y: j % size.height }
    } else {
        let j = pixel_index >> (2 * nb_bits) << (2 * nb_bits) | ex << nb_bits | od;
        proof {
            lemma_join(pixel_index, ex, od, nb_bits);
        }
        Position { x: j % size.width, y: j / size.width }
    }
}

/// The x coordinate interleaved in a Z-order code: its even bits.
pub fn decode_morton_2x(code: u32) -> (r: u32)
    ensures
        r == even_bits(code),
{
    compact_1_by_1(code)
}

/// The y coordinate interleaved in a Z-order code: its odd bits.
pub fn decode_morton_2y(code: u32) -> (r: u32)
    ensures
        r == even_bits(code >> 1u32),
{
    compact_1_by_1(code >> 1)
}

/// Collapses every second bit of `input`, from bit 0 up, into a contiguous field.
pub fn compact_1_by_1(input: u32) -> (r: u32)
    ensures
        r == even_bits(input),
{
    let mut x = input;
    x &= 0x5555_5555;
    x = (x ^ (x >> 1)) & 0x3333_3333;
    x = (x ^ (x >> 2)) & 0x0f0f_0f0f;
    x = (x ^ (x >> 4)) & 0x00ff_00ff;
    x = (x ^ (x >> 8)) & 0x0000_ffff;
    x
}

} // verus!
