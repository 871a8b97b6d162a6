use tid::error::TIDError;
use tid::texture_decode::{
    compact_1_by_1, decode_bc1_block, decode_morton_2x, decode_morton_2y, morton_order, Pixel,
    Position,
};
use tid::tile_order::tile_grid_fits;
use tid::{BlockCompressionType, DataType, ImageSize, PAYLOAD_OFFSET, TID};

fn header(type_code: u8, file_size: u32, name: &[u8], width: u32, height: u32, tag: [u8; 4]) -> Vec<u8> {
    let mut b = vec![0u8; PAYLOAD_OFFSET];
    b[0] = b'T';
    b[1] = b'I';
    b[2] = b'D';
    b[3] = type_code;
    b[4..8].copy_from_slice(&file_size.to_le_bytes());
    b[0x20..0x20 + name.len()].copy_from_slice(name);
    b[0x44..0x48].copy_from_slice(&width.to_le_bytes());
    b[0x48..0x4C].copy_from_slice(&height.to_le_bytes());
    b[0x64..0x68].copy_from_slice(&tag);
    b
}

fn px(r: u8, g: u8, b: u8, a: u8) -> Pixel {
    Pixel { r, g, b, a }
}

fn block(c0: u16, c1: u16, lut: u32) -> Vec<u8> {
    let mut v = Vec::new();
    v.extend_from_slice(&c0.to_le_bytes());
    v.extend_from_slice(&c1.to_le_bytes());
    v.extend_from_slice(&lut.to_le_bytes());
    v
}

fn tid(data_type: DataType, bc_type: BlockCompressionType, width: u32, height: u32) -> TID {
    TID {
        file_size: 0,
        data_type,
        name: String::from("t"),
        dimensions: ImageSize { width, height },
        bc_type,
    }
}

#[test]
fn header_fields_round_trip() {
    let b = header(0x94, 0x1234_5678, b"grass_01", 64, 32, *b"DXT1");
    let t = TID::import(&b).unwrap();
    assert_eq!(t.file_size, 0x1234_5678);
    assert_eq!(t.data_type, DataType::BlockCompression);
    assert_eq!(t.name, "grass_01");
    assert_eq!(t.dimensions, ImageSize { width: 64, height: 32 });
    assert_eq!(t.bc_type, BlockCompressionType::DXT1);
}

#[test]
fn header_all_type_codes() {
    for (code, expected) in [
        (0x84u8, DataType::BlockCompression),
        (0x94, DataType::BlockCompression),
        (0x9C, DataType::BlockCompression),
        (0x90, DataType::RGBA),
        (0x92, DataType::ARGB),
    ] {
        let b = header(code, 0, b"x", 4, 4, [0, 0, 0, 0]);
        assert_eq!(TID::import(&b).unwrap().data_type, expected);
    }
}

#[test]
fn header_name_stops_at_first_nul() {
    let b = header(0x90, 0, b"ab\0cd", 1, 1, [0, 0, 0, 0]);
    assert_eq!(TID::import(&b).unwrap().name, "ab");
}

#[test]
fn header_name_of_full_width() {
    let name = [b'n'; 32];
    let b = header(0x90, 0, &name, 1, 1, [0, 0, 0, 0]);
    assert_eq!(TID::import(&b).unwrap().name, "n".repeat(32));
}

#[test]
fn header_unknown_type_byte() {
    let b = header(0xFF, 0, b"x", 1, 1, [0, 0, 0, 0]);
    assert_eq!(TID::import(&b).err(), Some(TIDError::UnknownDataType(0xFF)));
}

#[test]
fn header_bad_magic() {
    let mut b = header(0x90, 0, b"x", 1, 1, [0, 0, 0, 0]);
    b[2] = b'X';
    assert_eq!(TID::import(&b).err(), Some(TIDError::MagicNumber(b"TIX".to_vec())));
}

#[test]
fn header_truncated() {
    let b = header(0x90, 0, b"x", 1, 1, [0, 0, 0, 0]);
    assert_eq!(TID::import(&b[..2]).err(), Some(TIDError::IO { available: 2 }));
    assert_eq!(TID::import(&b[..0x30]).err(), Some(TIDError::IO { available: 0x30 }));
    assert_eq!(TID::import(&b[..0x66]).err(), Some(TIDError::IO { available: 0x66 }));
    assert!(TID::import(&b[..0x68]).is_ok());
}

#[test]
fn header_unknown_fourcc() {
    let b = header(0x94, 0, b"x", 4, 4, *b"DXT3");
    assert_eq!(TID::import(&b).err(), Some(TIDError::UnknownFourCC(b"DXT3".to_vec())));
}

#[test]
fn header_invalid_name_text() {
    let b = header(0x90, 0, &[b'a', 0xC3, 0x28], 1, 1, [0, 0, 0, 0]);
    assert_eq!(
        TID::import(&b).err(),
        Some(TIDError::NameDecodeError(vec![b'a', 0xC3, 0x28]))
    );
}

#[test]
fn header_multibyte_name() {
    let b = header(0x90, 0, "é1".as_bytes(), 1, 1, [0, 0, 0, 0]);
    assert_eq!(TID::import(&b).unwrap().name, "é1");
}

#[test]
fn field_imports() {
    assert_eq!(DataType::import(&[0x92]), Ok(DataType::ARGB));
    assert_eq!(DataType::import(&[]), Err(TIDError::IO { available: 0 }));
    assert_eq!(BlockCompressionType::import(b"DXT5"), Ok(BlockCompressionType::DXT5));
    assert_eq!(BlockCompressionType::import(&[0, 0, 0, 0, 9]), Ok(BlockCompressionType::Uncompressed));
    assert_eq!(BlockCompressionType::import(b"DX"), Err(TIDError::IO { available: 2 }));
    assert_eq!(
        ImageSize::import(&[0x00, 0x01, 0, 0, 0x10, 0, 0, 0]),
        Ok(ImageSize { width: 256, height: 16 })
    );
    assert_eq!(ImageSize::import(&[1, 2, 3]), Err(TIDError::IO { available: 3 }));
}

#[test]
fn bc1_opaque_mode_palette() {
    // indices 0, 1, 2, 3 in the first row, then 3, 2, 1, 0 in the second
    let lut: u32 = 0b00_01_10_11_11_10_01_00;
    let tile = decode_bc1_block(&block(0xFFFF, 0x0000, lut)).unwrap();
    assert_eq!(tile[0], px(255, 255, 255, 255));
    assert_eq!(tile[1], px(0, 0, 0, 255));
    assert_eq!(tile[2], px(170, 170, 170, 255));
    assert_eq!(tile[3], px(85, 85, 85, 255));
    assert_eq!(tile[4], px(85, 85, 85, 255));
    assert_eq!(tile[7], px(255, 255, 255, 255));
    assert_eq!(tile[8], px(255, 255, 255, 255));
}

#[test]
fn bc1_transparent_mode_palette() {
    let tile = decode_bc1_block(&block(0x0000, 0x0000, 0xFFFF_FFE4)).unwrap();
    assert_eq!(tile[0], px(0, 0, 0, 255));
    assert_eq!(tile[1], px(0, 0, 0, 255));
    assert_eq!(tile[2], px(0, 0, 0, 255));
    assert_eq!(tile[3], px(0, 0, 0, 0));
    assert_eq!(tile[15], px(0, 0, 0, 0));
}

#[test]
fn bc1_three_colour_average() {
    // c0 < c1: red 31 against red 31 + blue 31
    let tile = decode_bc1_block(&block(0xF800, 0xF81F, 0b10)).unwrap();
    assert_eq!(tile[0], px(255, 0, 127, 255));
    assert_eq!(tile[1], px(255, 0, 0, 255));
}

#[test]
fn bc1_channel_expansion() {
    let tile = decode_bc1_block(&block(0xF800, 0x001F, 0b0100)).unwrap();
    assert_eq!(tile[0], px(255, 0, 0, 255));
    assert_eq!(tile[1], px(0, 0, 255, 255));
    let tile = decode_bc1_block(&block(0x07E0, 0x0000, 0)).unwrap();
    assert_eq!(tile[0], px(0, 255, 0, 255));
    // green 0b100000 widens to 0b10000010, red 0b10000 to 0b10000100
    let tile = decode_bc1_block(&block(0x8400, 0x0000, 0)).unwrap();
    assert_eq!(tile[0], px(132, 130, 0, 255));
}

#[test]
fn bc1_block_same_bytes_same_tile() {
    let b = block(0x1234, 0xABCD, 0x9E37_79B9);
    let mut longer = b.clone();
    longer.extend_from_slice(&[7, 7, 7]);
    let t1 = decode_bc1_block(&b).unwrap();
    let t2 = decode_bc1_block(&b).unwrap();
    let t3 = decode_bc1_block(&longer).unwrap();
    assert_eq!(t1, t2);
    assert_eq!(t1, t3);
}

#[test]
fn bc1_short_block() {
    assert_eq!(decode_bc1_block(&[0u8; 7]).err(), Some(TIDError::IO { available: 7 }));
}

#[test]
fn compaction_of_bits() {
    assert_eq!(compact_1_by_1(0x5555_5555), 0xFFFF);
    assert_eq!(compact_1_by_1(0xAAAA_AAAA), 0);
    assert_eq!(compact_1_by_1(0b1101), 0b11);
    assert_eq!(decode_morton_2x(0b1110), 0b10);
    assert_eq!(decode_morton_2y(0b1110), 0b11);
    assert_eq!(decode_morton_2y(0xAAAA_AAAA), 0xFFFF);
}

#[test]
fn morton_small_grid() {
    let g = ImageSize { width: 2, height: 2 };
    assert_eq!(morton_order(0, g), Position { x: 0, y: 0 });
    assert_eq!(morton_order(1, g), Position { x: 0, y: 1 });
    assert_eq!(morton_order(2, g), Position { x: 1, y: 0 });
    assert_eq!(morton_order(3, g), Position { x: 1, y: 1 });
}

#[test]
fn morton_rectangular_grids() {
    assert_eq!(morton_order(16, ImageSize { width: 4, height: 16 }), Position { x: 0, y: 4 });
    assert_eq!(morton_order(16, ImageSize { width: 16, height: 4 }), Position { x: 4, y: 0 });
    assert_eq!(morton_order(2, ImageSize { width: 3, height: 1 }), Position { x: 2, y: 0 });
}

fn assert_visits_every_tile_once(width: u32, height: u32) {
    let size = ImageSize { width, height };
    let mut seen = vec![false; (width * height) as usize];
    for i in 0..width * height {
        let p = morton_order(i, size);
        assert!(p.x < width && p.y < height);
        let k = (p.y * width + p.x) as usize;
        assert!(!seen[k]);
        seen[k] = true;
    }
    assert!(seen.iter().all(|s| *s));
}

#[test]
fn morton_bijection_8x8() {
    assert_visits_every_tile_once(8, 8);
}

#[test]
fn morton_bijection_16x16() {
    assert_visits_every_tile_once(16, 16);
}

#[test]
fn morton_bijection_4x16() {
    assert_visits_every_tile_once(4, 16);
}

#[test]
fn morton_bijection_16x4_and_2x8() {
    assert_visits_every_tile_once(16, 4);
    assert_visits_every_tile_once(2, 8);
}

#[test]
fn grid_fitness() {
    assert!(tile_grid_fits(ImageSize { width: 4, height: 16 }));
    assert!(tile_grid_fits(ImageSize { width: 3, height: 1 }));
    assert!(!tile_grid_fits(ImageSize { width: 6, height: 4 }));
    assert!(!tile_grid_fits(ImageSize { width: 3, height: 3 }));
    assert!(!tile_grid_fits(ImageSize { width: 0, height: 4 }));
    assert!(!tile_grid_fits(ImageSize { width: 0x1_0000, height: 0x1_0000 }));
}

#[test]
fn convert_rgba() {
    let t = tid(DataType::RGBA, BlockCompressionType::Uncompressed, 2, 1);
    let out = t.convert(&[1, 2, 3, 4, 5, 6, 7, 8, 9]).unwrap();
    assert_eq!(out, vec![px(1, 2, 3, 4), px(5, 6, 7, 8)]);
    assert_eq!(t.convert(&[1, 2, 3, 4, 5, 6, 7]), Err(TIDError::IO { available: 7 }));
}

#[test]
fn convert_argb() {
    let t = tid(DataType::ARGB, BlockCompressionType::Uncompressed, 1, 2);
    let out = t.convert(&[1, 2, 3, 4, 5, 6, 7, 8]).unwrap();
    assert_eq!(out, vec![px(2, 3, 4, 1), px(6, 7, 8, 5)]);
    assert_eq!(t.convert(&[1, 2, 3]), Err(TIDError::IO { available: 3 }));
}

#[test]
fn convert_dxt5_unsupported() {
    let t = tid(DataType::BlockCompression, BlockCompressionType::DXT5, 4, 4);
    assert_eq!(
        t.convert(&[0u8; 16]),
        Err(TIDError::UnsupportedFeature(BlockCompressionType::DXT5))
    );
    let b = header(0x84, 0, b"x", 4, 4, *b"DXT5");
    let parsed = TID::import(&b).unwrap();
    assert_eq!(
        parsed.convert(&[0u8; 16]),
        Err(TIDError::UnsupportedFeature(BlockCompressionType::DXT5))
    );
}

#[test]
fn convert_missing_fourcc() {
    let t = tid(DataType::BlockCompression, BlockCompressionType::Uncompressed, 4, 4);
    assert_eq!(t.convert(&[0u8; 8]), Err(TIDError::NoFourCC));
}

#[test]
fn convert_dxt1_bad_dimensions() {
    for (w, h) in [(6u32, 4u32), (24, 16), (12, 12)] {
        let t = tid(DataType::BlockCompression, BlockCompressionType::DXT1, w, h);
        assert_eq!(
            t.convert(&[0u8; 4096]),
            Err(TIDError::InvalidDimensions { width: w, height: h })
        );
    }
}

#[test]
fn convert_dxt1_short_payload() {
    let t = tid(DataType::BlockCompression, BlockCompressionType::DXT1, 8, 8);
    assert_eq!(t.convert(&[0u8; 31]), Err(TIDError::IO { available: 31 }));
}

#[test]
fn convert_dxt1_empty_image() {
    let t = tid(DataType::BlockCompression, BlockCompressionType::DXT1, 0, 8);
    assert_eq!(t.convert(&[]), Ok(vec![]));
}

#[test]
fn convert_dxt1_8x8_tile_placement() {
    let mut payload = Vec::new();
    payload.extend(block(0xF800, 0, 0)); // red
    payload.extend(block(0x07E0, 0, 0)); // green
    payload.extend(block(0x001F, 0, 0)); // blue
    payload.extend(block(0xFFFF, 0, 0)); // white
    let t = tid(DataType::BlockCompression, BlockCompressionType::DXT1, 8, 8);
    let out = t.convert(&payload).unwrap();
    let rows = [
        "RRRRBBBB", "RRRRBBBB", "RRRRBBBB", "RRRRBBBB", "GGGGWWWW", "GGGGWWWW", "GGGGWWWW",
        "GGGGWWWW",
    ];
    let mut expected = Vec::new();
    for row in rows {
        for c in row.chars() {
            expected.push(match c {
                'R' => px(255, 0, 0, 255),
                'G' => px(0, 255, 0, 255),
                'B' => px(0, 0, 255, 255),
                _ => px(255, 255, 255, 255),
            });
        }
    }
    assert_eq!(out.len(), 64);
    assert_eq!(out, expected);
}

#[test]
fn convert_dxt1_wide_image() {
    let mut payload = Vec::new();
    payload.extend(block(0xF800, 0, 0));
    payload.extend(block(0x001F, 0, 0));
    let t = tid(DataType::BlockCompression, BlockCompressionType::DXT1, 8, 4);
    let out = t.convert(&payload).unwrap();
    assert_eq!(out[0], px(255, 0, 0, 255));
    assert_eq!(out[3 * 8 + 3], px(255, 0, 0, 255));
    assert_eq!(out[4], px(0, 0, 255, 255));
    assert_eq!(out[3 * 8 + 7], px(0, 0, 255, 255));
}

#[test]
fn end_to_end_from_file_bytes() {
    let mut file = header(0x90, 0, b"px", 1, 1, [0, 0, 0, 0]);
    file.extend_from_slice(&[9, 8, 7, 6]);
    let t = TID::import(&file).unwrap();
    let out = t.convert(&file[PAYLOAD_OFFSET..]).unwrap();
    assert_eq!(out, vec![px(9, 8, 7, 6)]);
}

#[test]
fn error_descriptions() {
    assert_eq!(TIDError::NoFourCC.description(), "Missing FourCC for BC type");
    assert_eq!(TIDError::UnknownDataType(1).description(), "Unknown data type");
}
