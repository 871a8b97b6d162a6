//! The byte layout of a header built from known fields, and what parsing recovers from it.
use crate::wire::le_u32;
use crate::{bc_type_of, data_type_of, header_ok, name_bytes, nul_from};
use vstd::prelude::*;
use vstd::utf8::valid_utf8;

verus! {

/// Byte `k` (0..4) of the little-endian encoding of `v`.
pub open spec fn le_byte(v: u32, k: int) -> u8 {
    if k == 0 {
        (v % 256) as u8
    } else if k == 1 {
        ((v / 256) % 256) as u8
    } else if k == 2 {
        ((v / 65536) % 256) as u8
    } else {
        (v / 16777216) as u8
    }
}

/// The 128 header bytes of a texture with these fields, every other byte zero.
pub open spec fn header_bytes(
    type_code: u8,
    file_size: u32,
    name: Seq<u8>,
    width: u32,
    height: u32,
    tag: Seq<u8>,
) -> Seq<u8> {
    Seq::new(
        0x80,
        |i: int|
            if i == 0 {
                0x54u8
            } else if i == 1 {
                0x49u8
            } else if i == 2 {
                0x44u8
            } else if i == 3 {
                type_code
            } else if 4 <= i < 8 {
                le_byte(file_size, i - 4)
            } else if 0x20 <= i < 0x20 + name.len() {
                name[i - 0x20]
            } else if 0x44 <= i < 0x48 {
                le_byte(width, i - 0x44)
            } else if 0x48 <= i < 0x4C {
                le_byte(height, i - 0x48)
            } else if 0x64 <= i < 0x68 {
                tag[i - 0x64]
            } else {
                0u8
            },
    )
}

proof fn lemma_le_bytes_value(v: u32)
    ensures
        le_byte(v, 0) + 256 * le_byte(v, 1) + 65536 * (le_byte(v, 2) + 256 * le_byte(v, 3)) == v,
{
    assert((v % 256) + 256 * ((v / 256) % 256) + 65536 * (((v / 65536) % 256) + 256 * (v
        / 16777216)) == v) by (bit_vector);
}

proof fn lemma_nul_after_name(field: Seq<u8>, n: int, i: int)
    requires
        0 <= i <= n < field.len() || (0 <= i <= n && n == field.len()),
        forall|k: int| 0 <= k < n ==> field[k] != 0,
        n < field.len() ==> field[n] == 0,
    ensures
        nul_from(field, i) == n,
    decreases n - i,
{
    if i < n {
        lemma_nul_after_name(field, n, i + 1);
    }
}

/// Parsing a header built from known fields recovers exactly those fields: the magic and
/// the type code, the file size, a name of at most 32 bytes without NUL, both dimensions,
/// and the compression tag.
pub proof fn lemma_header_round_trip(
    type_code: u8,
    file_size: u32,
    name: Seq<u8>,
    width: u32,
    height: u32,
    tag: Seq<u8>,
)
    requires
        data_type_of(type_code) is Some,
        tag.len() == 4,
        bc_type_of(tag) is Some,
        name.len() <= 32,
        forall|k: int| 0 <= k < name.len() ==> name[k] != 0,
        valid_utf8(name),
    ensures
        ({
            let b = header_bytes(type_code, file_size, name, width, height, tag);
            &&& header_ok(b)
            &&& data_type_of(b[3]) == data_type_of(type_code)
            &&& le_u32(b, 4) == file_size
            &&& name_bytes(b) == name
            &&& le_u32(b, 0x44) == width
            &&& le_u32(b, 0x48) == height
            &&& bc_type_of(b.subrange(0x64, 0x68)) == bc_type_of(tag)
        }),
{
    let b = header_bytes(type_code, file_size, name, width, height, tag);
    let field = b.subrange(0x20, 0x40);
    assert(b.subrange(0, 3) =~= seq![0x54u8, 0x49u8, 0x44u8]);
    assert(b.subrange(0x64, 0x68) =~= tag);
    lemma_nul_after_name(field, name.len() as int, 0);
    assert(field.subrange(0, name.len() as int) =~= name);
    lemma_le_bytes_value(file_size);
    lemma_le_bytes_value(width);
    lemma_le_bytes_value(height);
}

} // verus!
