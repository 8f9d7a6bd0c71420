use rustlab::png_chunks::{
    channels, color_type_name, crc32, crc32_table, crc_mismatch_count, find_chunk,
    has_png_signature, idat_summary, parse_chunks, parse_ihdr, read_u32, zlib_header_fields,
    ChunkError,
};
use rustlab::png_ihdr::{ColorType, Description, Layout, LayoutError, ParseError, Problem};

/// Signature, IHDR (2x3, 8-bit RGB), gAMA (45455), IDAT (5 bytes), IEND.
const SMALL_PNG: [u8; 78] = [
    137, 80, 78, 71, 13, 10, 26, 10, 0, 0, 0, 13, 73, 72, 68, 82, 0, 0, 0, 2, 0, 0, 0, 3, 8, 2,
    0, 0, 0, 54, 136, 73, 214, 0, 0, 0, 4, 103, 65, 77, 65, 0, 0, 177, 143, 11, 252, 97, 5, 0, 0,
    0, 5, 73, 68, 65, 84, 120, 156, 1, 2, 3, 216, 69, 245, 212, 0, 0, 0, 0, 73, 69, 78, 68, 174,
    66, 96, 130,
];

#[test]
fn signature_and_big_endian() {
    assert!(has_png_signature(&SMALL_PNG));
    assert!(!has_png_signature(b"GIF89a.."));
    assert!(!has_png_signature(&SMALL_PNG[..7]));
    assert_eq!(read_u32(&SMALL_PNG, 16), 2);
    assert_eq!(read_u32(&[0x12, 0x34, 0x56, 0x78], 0), 0x1234_5678);
}

#[test]
fn crc_of_iend() {
    let table = crc32_table();
    assert_eq!(table[0], 0);
    assert_eq!(table[1], 0x7707_3096);
    assert_eq!(crc32(&[b"IEND"]), 0xAE42_6082);
    assert_eq!(crc32(&[b"IE", b"ND"]), 0xAE42_6082);
    assert_eq!(crc32(&[]), 0);
}

#[test]
fn chunks_of_small_png() {
    let chunks = parse_chunks(&SMALL_PNG).ok().expect("well-formed");
    assert_eq!(chunks.len(), 4);
    let offsets: Vec<usize> = chunks.iter().map(|c| c.offset).collect();
    assert_eq!(offsets, vec![8, 33, 49, 66]);
    let types: Vec<&str> = chunks.iter().map(|c| c.type_str()).collect();
    assert_eq!(types, vec!["IHDR", "gAMA", "IDAT", "IEND"]);
    assert_eq!(crc_mismatch_count(&chunks), 0);
    for c in &chunks {
        assert_eq!(c.computed_crc(), c.crc);
    }
    assert_eq!(find_chunk(&chunks, *b"IDAT"), Some(2));
    assert_eq!(find_chunk(&chunks, *b"PLTE"), None);
    assert_eq!(idat_summary(&chunks), (1, 5));
}

#[test]
fn chunk_property_bits() {
    let chunks = parse_chunks(&SMALL_PNG).ok().expect("well-formed");
    assert!(chunks[0].is_critical());
    assert!(!chunks[1].is_critical());
    assert!(!chunks[0].is_private());
    assert!(chunks[0].is_reserved_bit_ok());
    assert!(!chunks[0].is_safe_to_copy());
    assert!(!chunks[1].is_safe_to_copy());
    assert!(chunks[0].attributes().starts_with("必須"));
}

#[test]
fn corrupted_crc_is_counted() {
    let mut bytes = SMALL_PNG;
    bytes[58] ^= 0xFF; // a byte of IDAT data
    let chunks = parse_chunks(&bytes).ok().expect("still well-formed");
    assert_eq!(crc_mismatch_count(&chunks), 1);
}

#[test]
fn structural_errors() {
    assert!(matches!(
        parse_chunks(&SMALL_PNG[..30]),
        Err(ChunkError::PastEnd { offset: 8, length: 13, remaining: 14 })
    ));
    assert!(matches!(
        parse_chunks(&SMALL_PNG[..12]),
        Err(ChunkError::Truncated { offset: 8, remaining: 4 })
    ));
    assert!(matches!(parse_chunks(&SMALL_PNG[..8]), Err(ChunkError::NoChunks)));
    assert!(matches!(
        parse_chunks(&SMALL_PNG[..66]),
        Err(ChunkError::LastNotIend { chunk_type: [73, 68, 65, 84] })
    ));
    let mut no_ihdr: Vec<u8> = SMALL_PNG[..8].to_vec();
    no_ihdr.extend_from_slice(&SMALL_PNG[33..]);
    assert!(matches!(
        parse_chunks(&no_ihdr),
        Err(ChunkError::FirstNotIhdr { chunk_type: [103, 65, 77, 65] })
    ));
    let mut huge = SMALL_PNG;
    huge[8] = 0x80;
    assert!(matches!(parse_chunks(&huge), Err(ChunkError::LengthTooLarge { offset: 8, .. })));
}

#[test]
fn ihdr_fields_and_names() {
    let chunks = parse_chunks(&SMALL_PNG).ok().expect("well-formed");
    let h = parse_ihdr(chunks[0].data).ok().expect("13 bytes");
    assert_eq!((h.width, h.height, h.bit_depth, h.color_type), (2, 3, 8, 2));
    assert_eq!((h.compression, h.filter, h.interlace), (0, 0, 0));
    assert!(matches!(parse_ihdr(&[0u8; 12]), Err(12)));
    assert_eq!(color_type_name(2), "トゥルーカラー RGB");
    assert_eq!(color_type_name(5), "不明");
    assert_eq!(channels(6), Some(4));
    assert_eq!(channels(1), None);
    assert_eq!(zlib_header_fields(0x78), (8, 32768));
}

#[test]
fn colour_types_and_layout() {
    assert!(ColorType::from_u8(3) == Some(ColorType::Palette));
    assert!(ColorType::from_u8(5).is_none());
    assert_eq!(ColorType::Rgba.code(), 6);
    assert_eq!(ColorType::GrayscaleAlpha.channels(), 2);
    assert_eq!(ColorType::Palette.allowed_depths(), vec![1, 2, 4, 8]);
    let chunks = parse_chunks(&SMALL_PNG).ok().expect("well-formed");
    let h = parse_ihdr(chunks[0].data).ok().expect("13 bytes");
    let layout = Layout::new(&h).ok().expect("legal header");
    assert_eq!(layout.bits_per_pixel, 24);
    assert_eq!(layout.filter_bpp, 3);
    assert_eq!(layout.row_data_bytes, 6);
    assert_eq!(layout.bytes_per_row, 7);
    assert_eq!(layout.padding_bits, 0);
    assert_eq!(layout.raw_size, 21);
    assert_eq!(layout.pixels_per_byte(), None);
    let mut bad = parse_ihdr(chunks[0].data).ok().expect("13 bytes");
    bad.bit_depth = 4;
    assert!(matches!(
        Layout::new(&bad),
        Err(LayoutError::BadDepth { color: ColorType::Rgb, depth: 4 })
    ));
    bad.color_type = 7;
    assert!(matches!(Layout::new(&bad), Err(LayoutError::UnknownColorType(7))));
    let mut gray = parse_ihdr(chunks[0].data).ok().expect("13 bytes");
    gray.color_type = 0;
    gray.bit_depth = 2;
    gray.width = 5;
    let l = Layout::new(&gray).ok().expect("legal header");
    assert_eq!(l.pixels_per_byte(), Some(4));
    assert_eq!(l.row_data_bytes, 2);
    assert_eq!(l.padding_bits, 6);
}

#[test]
fn header_validation_and_descriptions() {
    let chunks = rustlab::png_ihdr::parse_chunks(&SMALL_PNG).ok().expect("well-formed");
    assert_eq!(chunks.len(), 4);
    let h = parse_ihdr(chunks[0].data).ok().expect("13 bytes");
    let layout = Layout::new(&h).ok().expect("legal header");
    let (problems, plte) = rustlab::png_ihdr::validate_header(&h, &layout, &chunks);
    assert!(problems.is_empty());
    assert!(plte.is_none());
    let mut bad = parse_ihdr(chunks[0].data).ok().expect("13 bytes");
    bad.width = 0;
    bad.interlace = 2;
    let (problems, _) = rustlab::png_ihdr::validate_header(&bad, &layout, &chunks);
    assert!(matches!(problems[0], Problem::ZeroDimension));
    assert!(matches!(problems[1], Problem::UnknownInterlace(2)));
    assert_eq!(problems.len(), 2);
    assert!(matches!(
        rustlab::png_ihdr::describe(&chunks[1], &h, &layout),
        Description::Gamma(45455)
    ));
    assert_eq!(rustlab::png_ihdr::idat_total(&chunks), 5);
    assert!(rustlab::png_ihdr::is_structural(*b"IEND"));
    assert!(!rustlab::png_ihdr::is_structural(*b"tEXt"));
    assert!(matches!(
        rustlab::png_ihdr::parse_chunks(b"not a png"),
        Err(ParseError::BadSignature)
    ));
}

#[test]
fn description_sentences() {
    let palette = Description::Palette { entries: 3, bytes: 9 };
    assert_eq!(palette.sentence().as_deref(), Some("パレット 3 色 (3バイト×3 = 9 バイト)"));
    let srgb = Description::Srgb { intent: 0, name: "Perceptual" };
    assert_eq!(srgb.sentence().as_deref(), Some("sRGB 色空間。レンダリング意図 0 (Perceptual)"));
    let ratio = Description::AspectRatio { x: 2, y: 1 };
    assert_eq!(ratio.sentence().as_deref(), Some("縦横比のみ 2:1 (単位未指定)"));
    let text = Description::Text("Title".to_string());
    assert_eq!(text.sentence().as_deref(), Some("テキスト \"Title\""));
    let other = Description::Other { bytes: 12, color_type: 6 };
    assert_eq!(
        other.sentence().as_deref(),
        Some("12 バイト（このトピックでは未解釈。カラータイプ 6 には影響しない）")
    );
    assert!(Description::Gamma(45455).sentence().is_none());
    assert!(Description::PixelsPerMetre { x: 2835, y: 2835 }.sentence().is_none());
}

#[test]
fn ihdr_needs_exactly_thirteen_bytes() {
    let data = [0, 0, 0, 1, 0, 0, 0, 2, 8, 6, 0, 0, 0];
    let h = parse_ihdr(&data).ok().expect("13 bytes");
    assert_eq!((h.width, h.height, h.bit_depth, h.color_type), (1, 2, 8, 6));
    assert!(matches!(parse_ihdr(&data[..12]), Err(12)));
    assert!(matches!(parse_ihdr(&[0u8; 14]), Err(14)));
}
