//! Decoding of TID texture containers into row-major RGBA pixel buffers.
use vstd::prelude::*;

pub mod error;
pub mod header_layout;
pub mod texture_decode;
pub mod tile_order;
pub mod wire;

use crate::error::TIDError;
use crate::texture_decode::{bc1_pixel, decode_bc1_block, morton_order, morton_position, Pixel};
use crate::tile_order::{
    lemma_morton_in_grid, lemma_morton_injective, lemma_morton_reaches, tile_grid_fits,
    tile_grid_ok,
};
use crate::wire::{le_u32, read_u32_le};
use rgb::FromSlice;
use vstd::arithmetic::div_mod::{lemma_fundamental_div_mod, lemma_fundamental_div_mod_converse};
use vstd::utf8::{decode_utf8, valid_utf8};

verus! {

/// Offset of the first payload byte; the header occupies the bytes before it.
pub const PAYLOAD_OFFSET: usize = 0x80;

/// The header of a TID texture.
#[derive(Debug, Clone)]
pub struct TID {
    pub file_size: u32,
    pub data_type: DataType,
    pub name: String,
    pub dimensions: ImageSize,
    pub bc_type: BlockCompressionType,
}

/// How the payload of a texture encodes its pixels.
#[derive(Debug, Clone, Copy, PartialEq, Eq, Structural)]
pub enum DataType {
    BlockCompression,
    RGBA,
    ARGB,
}

/// The block-compression variant named by the header's FourCC tag.
#[derive(Debug, Clone, Copy, PartialEq, Eq, Structural)]
pub enum BlockCompressionType {
    Uncompressed,
    DXT1,
    DXT5,
}

/// Width and height of an image, in pixels (or of a grid, in tiles).
#[derive(Debug, Clone, Copy, PartialEq, Eq, Structural)]
pub struct ImageSize {
    pub width: u32,
    pub height: u32,
}

/// The data type that a header's type code stands for.
pub open spec fn data_type_of(code: u8) -> Option<DataType> {
    if code == 0x84 || code == 0x94 || code == 0x9C {
        Some(DataType::BlockCompression)
    } else if code == 0x90 {
        Some(DataType::RGBA)
    } else if code == 0x92 {
        Some(DataType::ARGB)
    } else {
        None
    }
}

/// The compression variant that a 4-byte tag stands for.
pub open spec fn bc_type_of(tag: Seq<u8>) -> Option<BlockCompressionType> {
    if tag == seq![0u8, 0u8, 0u8, 0u8] {
        Some(BlockCompressionType::Uncompressed)
    } else if tag == seq![0x44u8, 0x58u8, 0x54u8, 0x31u8] {
        Some(BlockCompressionType::DXT1)
    } else if tag == seq![0x44u8, 0x58u8, 0x54u8, 0x35u8] {
        Some(BlockCompressionType::DXT5)
    } else {
        None
    }
}

impl DataType {
    /// The data type's name as the tooling shows it.
    pub fn label(&self) -> (r: &'static str)
        ensures
            r@ == match self {
                DataType::BlockCompression => "Block Compression"@,
                DataType::RGBA => "RGBA"@,
                DataType::ARGB => "ARGB"@,
            },
    {
        match self {
            DataType::BlockCompression => "Block Compression",
            DataType::RGBA => "RGBA",
            DataType::ARGB => "ARGB",
        }
    }

    /// Reads the type code from the first byte of `bytes`.
    pub fn import(bytes: &[u8]) -> (r: Result<DataType, TIDError>)
        ensures
            bytes@.len() < 1 ==> r == Err::<DataType, TIDError>(
                TIDError::IO { available: bytes@.len() as usize },
            ),
            bytes@.len() >= 1 ==> match data_type_of(bytes@[0]) {
                Some(t) => r == Ok::<DataType, TIDError>(t),
                None => r == Err::<DataType, TIDError>(TIDError::UnknownDataType(bytes@[0])),
            },
    {
        if bytes.len() < 1 {
            return Err(TIDError::IO { available: bytes.len() });
        }
        let code = bytes[0];
        if code == 0x84 || code == 0x94 || code == 0x9C {
            Ok(DataType::BlockCompression)
        } else if code == 0x90 {
            Ok(DataType::RGBA)
        } else if code == 0x92 {
            Ok(DataType::ARGB)
        } else {
            Err(TIDError::UnknownDataType(code))
        }
    }
}

impl BlockCompressionType {
    /// Reads the 4-byte compression tag from the start of `bytes`.
    pub fn import(bytes: &[u8]) -> (r: Result<BlockCompressionType, TIDError>)
        ensures
            bytes@.len() < 4 ==> r == Err::<BlockCompressionType, TIDError>(
                TIDError::IO { available: bytes@.len() as usize },
            ),
            bytes@.len() >= 4 ==> match bc_type_of(bytes@.subrange(0, 4)) {
                Some(t) => r == Ok::<BlockCompressionType, TIDError>(t),
                None => (r matches Err(TIDError::UnknownFourCC(tag)) && tag@ == bytes@.subrange(
                    0,
                    4,
                )),
            },
    {
        if bytes.len() < 4 {
            return Err(TIDError::IO { available: bytes.len() });
        }
        let (b0, b1, b2, b3) = (bytes[0], bytes[1], bytes[2], bytes[3]);
        let ghost tag = bytes@.subrange(0, 4);
        assert(tag =~= seq![b0, b1, b2, b3]);
        if b0 == 0 && b1 == 0 && b2 == 0 && b3 == 0 {
            Ok(BlockCompressionType::Uncompressed)
        } else if b0 == 0x44 && b1 == 0x58 && b2 == 0x54 && b3 == 0x31 {
            Ok(BlockCompressionType::DXT1)
        } else if b0 == 0x44 && b1 == 0x58 && b2 == 0x54 && b3 == 0x35 {
            Ok(BlockCompressionType::DXT5)
        } else {
            let mut four_cc: Vec<u8> = Vec::new();
            four_cc.push(b0);
            four_cc.push(b1);
            four_cc.push(b2);
            four_cc.push(b3);
            assert(four_cc@ =~= tag);
            Err(TIDError::UnknownFourCC(four_cc))
        }
    }
}

impl ImageSize {
    /// Reads width then height, two little-endian `u32`s, from the start of `bytes`.
    pub fn import(bytes: &[u8]) -> (r: Result<ImageSize, TIDError>)
        ensures
            bytes@.len() < 8 ==> r == Err::<ImageSize, TIDError>(
                TIDError::IO { available: bytes@.len() as usize },
            ),
            bytes@.len() >= 8 ==> r == Ok::<ImageSize, TIDError>(
                (ImageSize { width: le_u32(bytes@, 0) as u32, height: le_u32(bytes@, 4) as u32 }),
            ),
    {
        if bytes.len() < 8 {
            return Err(TIDError::IO { available: bytes.len() });
        }
        Ok(ImageSize { width: read_u32_le(bytes, 0), height: read_u32_le(bytes, 4) })
    }
}

/// The index of the first NUL of `field` at or after `i`, or its length if there is none.
pub open spec fn nul_from(field: Seq<u8>, i: int) -> int
    decreases field.len() - i,
{
    if i >= field.len() || field[i] == 0 {
        i
    } else {
        nul_from(field, i + 1)
    }
}

/// The name field's bytes up to its first NUL, at most 32.
pub open spec fn name_bytes(b: Seq<u8>) -> Seq<u8> {
    let field = b.subrange(0x20, 0x40);
    field.subrange(0, nul_from(field, 0))
}

pub open spec fn magic_ok(b: Seq<u8>) -> bool {
    b.subrange(0, 3) == seq![0x54u8, 0x49u8, 0x44u8]
}

/// Whether `b` starts with a well-formed header.
pub open spec fn header_ok(b: Seq<u8>) -> bool {
    &&& b.len() >= 0x68
    &&& magic_ok(b)
    &&& data_type_of(b[3]) is Some
    &&& valid_utf8(name_bytes(b))
    &&& bc_type_of(b.subrange(0x64, 0x68)) is Some
}

/// The error that parsing a header from `b` reports: the first field, in file order, that
/// is missing or malformed.
pub open spec fn header_error(b: Seq<u8>, e: TIDError) -> bool {
    if b.len() < 3 {
        e == TIDError::IO { available: b.len() as usize }
    } else if !magic_ok(b) {
        e matches TIDError::MagicNumber(v) && v@ == b.subrange(0, 3)
    } else if b.len() < 4 {
        e == TIDError::IO { available: b.len() as usize }
    } else if data_type_of(b[3]) is None {
        e == TIDError::UnknownDataType(b[3])
    } else if b.len() < 0x40 {
        e == TIDError::IO { available: b.len() as usize }
    } else if !valid_utf8(name_bytes(b)) {
        e matches TIDError::NameDecodeError(v) && v@ == name_bytes(b)
    } else if b.len() < 0x68 {
        e == TIDError::IO { available: b.len() as usize }
    } else {
        e matches TIDError::UnknownFourCC(v) && v@ == b.subrange(0x64, 0x68)
    }
}

/// Relies on `String::from_utf8`: it succeeds exactly on valid UTF-8, with the decoded
/// text, and otherwise hands the bytes back.
#[verifier::external_body]
fn string_from_utf8(bytes: Vec<u8>) -> (r: Result<String, Vec<u8>>)
    ensures
        match r {
            Ok(s) => valid_utf8(bytes@) && s@ == decode_utf8(bytes@),
            Err(v) => !valid_utf8(bytes@) && v@ == bytes@,
        },
{
    String::from_utf8(bytes).map_err(|e| e.into_bytes())
}

fn read_name(bytes: &[u8]) -> (r: Result<String, TIDError>)
    requires
        bytes@.len() >= 0x40,
    ensures
        match r {
            Ok(s) => valid_utf8(name_bytes(bytes@)) && s@ == decode_utf8(name_bytes(bytes@)),
            Err(e) => !valid_utf8(name_bytes(bytes@)) && (e matches TIDError::NameDecodeError(v)
                && v@ == name_bytes(bytes@)),
        },
{
    let ghost field = bytes@.subrange(0x20, 0x40);
    let mut kept: Vec<u8> = Vec::new();
    let mut i: usize = 0;
    while i < 32 && bytes[0x20 + i] != 0
        invariant
            i <= 32,
            bytes@.len() >= 0x40,
            field == bytes@.subrange(0x20, 0x40),
            nul_from(field, i as int) == nul_from(field, 0),
            kept@ == field.subrange(0, i as int),
        decreases 32 - i,
    {
        kept.push(bytes[0x20 + i]);
        i += 1;
        assert(kept@ =~= field.subrange(0, i as int));
    }
    assert(nul_from(field, i as int) == i);
    match string_from_utf8(kept) {
        Ok(s) => Ok(s),
        Err(v) => Err(TIDError::NameDecodeError(v)),
    }
}

impl TID {
    /// Parses the header at the start of `bytes`.
    pub fn import(bytes: &[u8]) -> (r: Result<TID, TIDError>)
        ensures
            match r {
                Ok(t) => {
                    &&& header_ok(bytes@)
                    &&& Some(t.data_type) == data_type_of(bytes@[3])
                    &&& t.file_size == le_u32(bytes@, 4)
                    &&& t.name@ == decode_utf8(name_bytes(bytes@))
                    &&& t.dimensions.width == le_u32(bytes@, 0x44)
                    &&& t.dimensions.height == le_u32(bytes@, 0x48)
                    &&& Some(t.bc_type) == bc_type_of(bytes@.subrange(0x64, 0x68))
                },
                Err(e) => !header_ok(bytes@) && header_error(bytes@, e),
            },
    {
        if bytes.len() < 3 {
            return Err(TIDError::IO { available: bytes.len() });
        }
        if !(bytes[0] == 0x54 && bytes[1] == 0x49 && bytes[2] == 0x44) {
            let mut found: Vec<u8> = Vec::new();
            found.push(bytes[0]);
            found.push(bytes[1]);
            found.push(bytes[2]);
            assert(found@ =~= bytes@.subrange(0, 3));
            return Err(TIDError::MagicNumber(found));
        }
        assert(bytes@.subrange(0, 3) =~= seq![0x54u8, 0x49u8, 0x44u8]);
        if bytes.len() < 4 {
            return Err(TIDError::IO { available: bytes.len() });
        }
        let code = vstd::slice::slice_subrange(bytes, 3, bytes.len());
        assert(code@[0] == bytes@[3]);
        let data_type = match DataType::import(code) {
            Ok(t) => t,
            Err(e) => return Err(e),
        };
        if bytes.len() < 0x40 {
            return Err(TIDError::IO { available: bytes.len() });
        }
        let file_size = read_u32_le(bytes, 4);
        let name = match read_name(bytes) {
            Ok(s) => s,
            Err(e) => return Err(e),
        };
        if bytes.len() < 0x68 {
            return Err(TIDError::IO { available: bytes.len() });
        }
        let dimensions = ImageSize { width: read_u32_le(bytes, 0x44), height: read_u32_le(bytes, 0x48) };
        let tag = vstd::slice::slice_subrange(bytes, 0x64, 0x68);
        assert(tag@.subrange(0, 4) =~= bytes@.subrange(0x64, 0x68));
        let bc_type = match BlockCompressionType::import(tag) {
            Ok(t) => t,
            Err(e) => return Err(e),
        };
        Ok(TID { file_size, data_type, name, dimensions, bc_type })
    }
}

/// Pixel `k` of a payload of interleaved R, G, B, A bytes.
pub open spec fn rgba_pixel(p: Seq<u8>, k: int) -> Pixel {
    Pixel { r: p[4 * k], g: p[4 * k + 1], b: p[4 * k + 2], a: p[4 * k + 3] }
}

/// Pixel `k` of a payload of interleaved A, R, G, B bytes.
pub open spec fn argb_pixel(p: Seq<u8>, k: int) -> Pixel {
    Pixel { r: p[4 * k + 1], g: p[4 * k + 2], b: p[4 * k + 3], a: p[4 * k] }
}

/// The grid of 4x4 tiles that covers an image.
pub open spec fn tile_grid(size: ImageSize) -> ImageSize {
    ImageSize { width: size.width / 4, height: size.height / 4 }
}

/// Dimensions that a block-compressed image may have: whole tiles, laid out by Z-order,
/// and a pixel count that the machine can address.
pub open spec fn dxt1_dims_ok(size: ImageSize) -> bool {
    &&& size.width * size.height <= usize::MAX
    &&& size.width % 4 == 0
    &&& size.height % 4 == 0
    &&& (size.width == 0 || size.height == 0 || tile_grid_ok(tile_grid(size)))
}

/// The 8-byte block of tile `t` in a payload.
pub open spec fn block_of(p: Seq<u8>, t: int) -> Seq<u8> {
    p.subrange(8 * t, 8 * t + 8)
}

/// Where pixel `n` (row-major, 0..16) of tile `t` goes in the row-major pixel buffer.
pub open spec fn tile_pixel_index(t: u32, n: int, size: ImageSize) -> int {
    let pos = morton_position(t, tile_grid(size));
    (pos.y * 4 + n / 4) * size.width + pos.x * 4 + n % 4
}

proof fn lemma_grid_nonempty(t: u32, size: ImageSize)
    requires
        dxt1_dims_ok(size),
        t < tile_grid(size).width * tile_grid(size).height,
    ensures
        size.width > 0,
        size.height > 0,
        tile_grid_ok(tile_grid(size)),
{
    let g = tile_grid(size);
    assert(g.width == 0 || g.height == 0 ==> g.width * g.height == 0) by (nonlinear_arith);
}

proof fn lemma_tile_pixel_in_image(t: u32, n: int, size: ImageSize)
    requires
        dxt1_dims_ok(size),
        t < tile_grid(size).width * tile_grid(size).height,
        0 <= n < 16,
    ensures
        0 <= tile_pixel_index(t, n, size) < size.width * size.height,
{
    let g = tile_grid(size);
    lemma_grid_nonempty(t, size);
    lemma_morton_in_grid(t, g);
    let pos = morton_position(t, g);
    let row = pos.y * 4 + n / 4;
    let col = pos.x * 4 + n % 4;
    assert(0 <= row * size.width + col < size.width * size.height) by (nonlinear_arith)
        requires
            0 <= row < size.height,
            0 <= col < size.width,
    ;
}

proof fn lemma_tile_pixels_distinct(t1: u32, n1: int, t2: u32, n2: int, size: ImageSize)
    requires
        dxt1_dims_ok(size),
        t1 < tile_grid(size).width * tile_grid(size).height,
        t2 < tile_grid(size).width * tile_grid(size).height,
        0 <= n1 < 16,
        0 <= n2 < 16,
        tile_pixel_index(t1, n1, size) == tile_pixel_index(t2, n2, size),
    ensures
        t1 == t2,
        n1 == n2,
{
    let g = tile_grid(size);
    lemma_grid_nonempty(t1, size);
    lemma_morton_in_grid(t1, g);
    lemma_morton_in_grid(t2, g);
    let p1 = morton_position(t1, g);
    let p2 = morton_position(t2, g);
    let w = size.width as int;
    let row1 = p1.y * 4 + n1 / 4;
    let row2 = p2.y * 4 + n2 / 4;
    let col1 = p1.x * 4 + n1 % 4;
    let col2 = p2.x * 4 + n2 % 4;
    assert(row1 >= 0 && row2 >= 0);
    lemma_fundamental_div_mod_converse(row1 * w + col1, w, row1, col1);
    lemma_fundamental_div_mod_converse(row1 * w + col1, w, row2, col2);
    lemma_fundamental_div_mod_converse(row1, 4, p1.y as int, n1 / 4);
    lemma_fundamental_div_mod_converse(row1, 4, p2.y as int, n2 / 4);
    lemma_fundamental_div_mod_converse(col1, 4, p1.x as int, n1 % 4);
    lemma_fundamental_div_mod_converse(col1, 4, p2.x as int, n2 % 4);
    assert(p1 == p2);
    lemma_morton_injective(t1, t2, g);
}

/// In a block-compressed image every pixel is pixel `n` of some tile `t`: together with the
/// Z-order bijection, the tiles cover the image exactly.
pub proof fn lemma_tiles_cover_image(k: int, size: ImageSize) -> (tn: (u32, int))
    requires
        dxt1_dims_ok(size),
        0 <= k < size.width * size.height,
    ensures
        tn.0 < tile_grid(size).width * tile_grid(size).height,
        0 <= tn.1 < 16,
        tile_pixel_index(tn.0, tn.1, size) == k,
{
    let w = size.width as int;
    let g = tile_grid(size);
    assert(size.width > 0 && size.height > 0) by (nonlinear_arith)
        requires
            0 <= k < size.width * size.height,
    ;
    lemma_fundamental_div_mod(k, w);
    let row = k / w;
    let col = k % w;
    assert(row < size.height) by (nonlinear_arith)
        requires
            k == w * row + col,
            0 <= col,
            k < w * size.height,
            w > 0,
    ;
    let n = (row % 4) * 4 + col % 4;
    lemma_fundamental_div_mod_converse(n, 4, row % 4, col % 4);
    let t = lemma_morton_reaches((col / 4) as u32, (row / 4) as u32, g);
    assert(row == (row / 4) * 4 + row % 4 && col == (col / 4) * 4 + col % 4);
    assert(k == row * w + col) by (nonlinear_arith)
        requires
            k == w * row + col,
    ;
    assert(g.width * g.height > 0) by (nonlinear_arith)
        requires
            g.width > 0,
            g.height > 0,
    ;
    (t, n)
}

/// Relies on rgb's `FromSlice::as_rgba`: each whole group of four bytes, in order, is one
/// pixel with red, green, blue and alpha.
#[verifier::external_body]
fn bytes_as_rgba(bytes: &[u8]) -> (r: Vec<Pixel>)
    ensures
        r@.len() == bytes@.len() / 4,
        forall|k: int| 0 <= k < r@.len() ==> #[trigger] r@[k] == rgba_pixel(bytes@, k),
{
    bytes.as_rgba().iter().map(|p| Pixel { r: p.r, g: p.g, b: p.b, a: p.a }).collect()
}

fn decode_argb(payload: &[u8], n_pixels: usize) -> (r: Vec<Pixel>)
    requires
        4 * n_pixels <= payload@.len(),
    ensures
        r@.len() == n_pixels,
        forall|k: int| 0 <= k < n_pixels ==> #[trigger] r@[k] == argb_pixel(payload@, k),
{
    let len = payload.len();
    let mut out: Vec<Pixel> = Vec::new();
    let mut k: usize = 0;
    while k < n_pixels
        invariant
            k <= n_pixels,
            4 * n_pixels <= payload@.len(),
            len == payload@.len(),
            out@.len() == k,
            forall|j: int| 0 <= j < k ==> #[trigger] out@[j] == argb_pixel(payload@, j),
        decreases n_pixels - k,
    {
        let at = 4 * k;
        out.push(Pixel { r: payload[at + 1], g: payload[at + 2], b: payload[at + 3], a: payload[at] });
        k += 1;
    }
    out
}

fn blank_pixels(n: usize) -> (r: Vec<Pixel>)
    ensures
        r@.len() == n,
{
    let mut out: Vec<Pixel> = Vec::new();
    let mut k: usize = 0;
    while k < n
        invariant
            k <= n,
            out@.len() == k,
        decreases n - k,
    {
        out.push(Pixel { r: 0, g: 0, b: 0, a: 0 });
        k += 1;
    }
    out
}

fn decode_dxt1(payload: &[u8], size: ImageSize) -> (r: Vec<Pixel>)
    requires
        dxt1_dims_ok(size),
        8 * (tile_grid(size).width * tile_grid(size).height) <= payload@.len(),
    ensures
        r@.len() == size.width * size.height,
        forall|t: u32, n: int|
            t < tile_grid(size).width * tile_grid(size).height && 0 <= n < 16 ==> r@[#[trigger] tile_pixel_index(t, n, size)]
                == #[trigger] bc1_pixel(block_of(payload@, t as int), n),
{
    let len = payload.len();
    let grid = ImageSize { width: size.width / 4, height: size.height / 4 };
    let n_pixels: usize = size.width as usize * size.height as usize;
    let mut out = blank_pixels(n_pixels);
    if size.width == 0 || size.height == 0 {
        assert(grid.width * grid.height == 0) by (nonlinear_arith)
            requires
                grid.width == 0 || grid.height == 0,
        ;
        return out;
    }
    let n_tiles: u32 = grid.width * grid.height;
    let mut i: u32 = 0;
    while i < n_tiles
        invariant
            i <= n_tiles,
            size.width > 0 && size.height > 0,
            dxt1_dims_ok(size),
            grid == tile_grid(size),
            n_tiles == grid.width * grid.height,
            8 * n_tiles <= payload@.len(),
            len == payload@.len(),
            out@.len() == size.width * size.height,
            forall|t: u32, n: int|
                t < i && 0 <= n < 16 ==> out@[#[trigger] tile_pixel_index(t, n, size)]
                    == #[trigger] bc1_pixel(block_of(payload@, t as int), n),
        decreases n_tiles - i,
    {
        let start: usize = i as usize * 8;
        let block = vstd::slice::slice_subrange(payload, start, start + 8);
        let tile = match decode_bc1_block(block) {
            Ok(t) => t,
            Err(_) => {
                // the block always holds eight bytes
                proof {
                    assert(false);
                }
                return out;
            },
        };
        let pos = morton_order(i, grid);
        proof {
            lemma_morton_in_grid(i, grid);
        }
        let mut n: usize = 0;
        while n < 16
            invariant
                i < n_tiles,
                n <= 16,
                size.width > 0 && size.height > 0,
                dxt1_dims_ok(size),
                grid == tile_grid(size),
                n_tiles == grid.width * grid.height,
                pos == morton_position(i, grid),
                pos.x < grid.width,
                pos.y < grid.height,
                block@ == block_of(payload@, i as int),
                forall|m: int| 0 <= m < 16 ==> #[trigger] tile@[m] == bc1_pixel(block@, m),
                out@.len() == size.width * size.height,
                forall|t: u32, m: int|
                    t < i && 0 <= m < 16 ==> out@[#[trigger] tile_pixel_index(t, m, size)]
                        == #[trigger] bc1_pixel(block_of(payload@, t as int), m),
                forall|m: int|
                    0 <= m < n ==> out@[#[trigger] tile_pixel_index(i, m, size)] == bc1_pixel(
                        block_of(payload@, i as int),
                        m,
                    ),
            decreases 16 - n,
        {
            let row: usize = pos.y as usize * 4 + n / 4;
            let col: usize = pos.x as usize * 4 + n % 4;
            proof {
                lemma_tile_pixel_in_image(i, n as int, size);
                assert(row * size.width + col == tile_pixel_index(i, n as int, size));
            }
            let idx: usize = row * size.width as usize + col;
            let ghost before = out@;
            out.set(idx, tile[n]);
            proof {
                assert forall|t: u32, m: int|
                    t < i && 0 <= m < 16 implies out@[#[trigger] tile_pixel_index(t, m, size)]
                    == #[trigger] bc1_pixel(block_of(payload@, t as int), m) by {
                    if tile_pixel_index(t, m, size) == idx {
                        lemma_tile_pixels_distinct(t, m, i, n as int, size);
                    }
                    lemma_tile_pixel_in_image(t, m, size);
                }
                assert forall|m: int|
                    0 <= m < n + 1 implies out@[#[trigger] tile_pixel_index(i, m, size)]
                    == bc1_pixel(block_of(payload@, i as int), m) by {
                    if m < n && tile_pixel_index(i, m, size) == idx {
                        lemma_tile_pixels_distinct(i, m, i, n as int, size);
                    }
                    lemma_tile_pixel_in_image(i, m, size);
                }
            }
            n += 1;
        }
        i += 1;
    }
    out
}

impl TID {
    /// Decodes `payload`, the bytes that follow the header, into a row-major pixel buffer.
    pub fn convert(&self, payload: &[u8]) -> (r: Result<Vec<Pixel>, TIDError>)
        ensures
            ({
                let w = self.dimensions.width as int;
                let h = self.dimensions.height as int;
                let p = payload@;
                let g = tile_grid(self.dimensions);
                match self.data_type {
                    DataType::RGBA => if p.len() < 4 * (w * h) {
                        r == Err::<Vec<Pixel>, TIDError>(TIDError::IO { available: p.len() as usize })
                    } else {
                        (r matches Ok(v) && v@.len() == w * h && forall|k: int|
                            0 <= k < w * h ==> #[trigger] v@[k] == rgba_pixel(p, k))
                    },
                    DataType::ARGB => if p.len() < 4 * (w * h) {
                        r == Err::<Vec<Pixel>, TIDError>(TIDError::IO { available: p.len() as usize })
                    } else {
                        (r matches Ok(v) && v@.len() == w * h && forall|k: int|
                            0 <= k < w * h ==> #[trigger] v@[k] == argb_pixel(p, k))
                    },
                    DataType::BlockCompression => match self.bc_type {
                        BlockCompressionType::Uncompressed => r == Err::<Vec<Pixel>, TIDError>(
                            TIDError::NoFourCC,
                        ),
                        BlockCompressionType::DXT5 => r == Err::<Vec<Pixel>, TIDError>(
                            TIDError::UnsupportedFeature(BlockCompressionType::DXT5),
                        ),
                        BlockCompressionType::DXT1 => if !dxt1_dims_ok(self.dimensions) {
                            r == Err::<Vec<Pixel>, TIDError>(
                                TIDError::InvalidDimensions { width: w as u32, height: h as u32 },
                            )
                        } else if p.len() < 8 * (g.width * g.height) {
                            r == Err::<Vec<Pixel>, TIDError>(TIDError::IO { available: p.len() as usize })
                        } else {
                            (r matches Ok(v) && v@.len() == w * h && forall|t: u32, n: int|
                                t < g.width * g.height && 0 <= n < 16
                                    ==> v@[#[trigger] tile_pixel_index(t, n, self.dimensions)]
                                    == #[trigger] bc1_pixel(block_of(p, t as int), n))
                        },
                    },
                }
            }),
    {
        let width = self.dimensions.width;
        let height = self.dimensions.height;
        assert(width * height <= u64::MAX) by (nonlinear_arith)
            requires
                width <= u32::MAX,
                height <= u32::MAX,
        ;
        let n_pixels: u64 = width as u64 * height as u64;
        match self.data_type {
            DataType::RGBA => {
                if ((payload.len() / 4) as u64) < n_pixels {
                    return Err(TIDError::IO { available: payload.len() });
                }
                let body = vstd::slice::slice_subrange(payload, 0, 4 * (n_pixels as usize));
                let pixels = bytes_as_rgba(body);
                assert forall|k: int| 0 <= k < n_pixels implies #[trigger] pixels@[k] == rgba_pixel(
                    payload@,
                    k,
                ) by {
                    assert(pixels@[k] == rgba_pixel(body@, k));
                }
                Ok(pixels)
            },
            DataType::ARGB => {
                if ((payload.len() / 4) as u64) < n_pixels {
                    return Err(TIDError::IO { available: payload.len() });
                }
                Ok(decode_argb(payload, n_pixels as usize))
            },
            DataType::BlockCompression => match self.bc_type {
                BlockCompressionType::DXT1 => {
                    if n_pixels > usize::MAX as u64 || !(width % 4 == 0 && height % 4 == 0) {
                        return Err(TIDError::InvalidDimensions { width, height });
                    }
                    let grid = ImageSize { width: width / 4, height: height / 4 };
                    if width != 0 && height != 0 && !tile_grid_fits(grid) {
                        return Err(TIDError::InvalidDimensions { width, height });
                    }
                    assert(grid.width * grid.height <= u64::MAX) by (nonlinear_arith)
                        requires
                            grid.width <= u32::MAX,
                            grid.height <= u32::MAX,
                    ;
                    let n_tiles: u64 = grid.width as u64 * grid.height as u64;
                    if (payload.len() as u64) / 8 < n_tiles {
                        return Err(TIDError::IO { available: payload.len() });
                    }
                    Ok(decode_dxt1(payload, self.dimensions))
                },
                BlockCompressionType::DXT5 => Err(
                    TIDError::UnsupportedFeature(BlockCompressionType::DXT5),
                ),
                BlockCompressionType::Uncompressed => Err(TIDError::NoFourCC),
            },
        }
    }
}

} // verus!
