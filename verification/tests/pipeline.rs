use pngoptim::cli::QualityRange;
use pngoptim::error::AppError;
use pngoptim::pipeline::{
    apply_posterize_palette, check_minimum_quality, check_skip_if_larger, encode_indexed_png_raw,
    encode_indexed_png_to_vec, indexed_bit_depth, pack_indices_by_bit_depth, remapped_rgba_from_indices,
    row_byte_count, write_png_chunk, BitDepth, CodePoints, PixelDims, PreservedMetadata,
    color_conversion, decode_png_rgba, decoded_or_error, mark_converted_to_srgb, ColorConversion,
};

#[test]
fn posterize_reduces_bits() {
    let mut palette = vec![[255u8, 127, 63, 31]];
    apply_posterize_palette(&mut palette, 2);
    assert_eq!(palette[0], [252, 124, 60, 28]);
}

#[test]
fn posterize_edge_bit_counts() {
    let mut palette = vec![[255u8, 127, 63, 31], [1, 2, 3, 4]];
    apply_posterize_palette(&mut palette, 0);
    assert_eq!(palette, vec![[255u8, 127, 63, 31], [1, 2, 3, 4]]);
    apply_posterize_palette(&mut palette, 8);
    assert_eq!(palette, vec![[0u8; 4], [0u8; 4]]);
    let mut palette = vec![[255u8, 128, 129, 7]];
    apply_posterize_palette(&mut palette, 7);
    assert_eq!(palette[0], [128, 128, 128, 0]);
}

#[test]
fn bit_depth_selection_matches_palette_size() {
    assert_eq!(indexed_bit_depth(2), BitDepth::One);
    assert_eq!(indexed_bit_depth(4), BitDepth::Two);
    assert_eq!(indexed_bit_depth(16), BitDepth::Four);
    assert_eq!(indexed_bit_depth(17), BitDepth::Eight);
}

#[test]
fn remapped_rgba_is_reconstructed_from_palette_indices() {
    let palette = vec![[1u8, 2, 3, 4], [5u8, 6, 7, 8]];
    let rgba = remapped_rgba_from_indices(&[1, 0], &palette);
    assert_eq!(rgba, vec![5, 6, 7, 8, 1, 2, 3, 4]);
}

#[test]
fn pack_indices_2bit_row_aligned() {
    let indices = vec![0u8, 1, 2, 3, 3, 2, 1, 0];
    let packed = pack_indices_by_bit_depth(&indices, 4, 2, BitDepth::Two).expect("pack 2-bit indices");
    assert_eq!(packed, vec![0b0001_1011, 0b1110_0100]);
}

#[test]
fn pack_indices_1bit_with_row_padding() {
    let indices = vec![0u8, 1, 1, 0, 1, 0];
    let packed = pack_indices_by_bit_depth(&indices, 3, 2, BitDepth::One).expect("pack 1-bit indices");
    assert_eq!(packed, vec![0b0110_0000, 0b0100_0000]);
}

#[test]
fn pack_indices_4bit_and_8bit() {
    let indices = vec![1u8, 15, 7];
    let packed = pack_indices_by_bit_depth(&indices, 3, 1, BitDepth::Four).expect("pack 4-bit");
    assert_eq!(packed, vec![0x1f, 0x70]);
    let packed = pack_indices_by_bit_depth(&indices, 3, 1, BitDepth::Eight).expect("pack 8-bit");
    assert_eq!(packed, indices);
}

#[test]
fn pack_indices_errors() {
    match pack_indices_by_bit_depth(&vec![0u8; 5], 2, 2, BitDepth::Eight) {
        Err(AppError::Encode(m)) => assert_eq!(m, "indexed data length mismatch: expected=4, actual=5"),
        other => panic!("unexpected {other:?}"),
    }
    match pack_indices_by_bit_depth(&vec![0u8; 4], 2, 2, BitDepth::Sixteen) {
        Err(AppError::Encode(m)) => assert_eq!(m, "indexed PNG does not support 16-bit palette indices"),
        other => panic!("unexpected {other:?}"),
    }
    match pack_indices_by_bit_depth(&vec![0u8, 1, 4, 9], 2, 2, BitDepth::Two) {
        Err(AppError::Encode(m)) => assert_eq!(m, "palette index out of range for 2-bit mode: 4"),
        other => panic!("unexpected {other:?}"),
    }
}

#[test]
fn row_bytes_round_up() {
    assert_eq!(row_byte_count(3, BitDepth::One), 1);
    assert_eq!(row_byte_count(9, BitDepth::One), 2);
    assert_eq!(row_byte_count(5, BitDepth::Four), 3);
    assert_eq!(row_byte_count(5, BitDepth::Sixteen), 10);
}

#[test]
fn iend_chunk_has_its_known_crc() {
    let mut out = Vec::new();
    write_png_chunk(&mut out, *b"IEND", &[]);
    assert_eq!(out, vec![0, 0, 0, 0, b'I', b'E', b'N', b'D', 0xAE, 0x42, 0x60, 0x82]);
}

fn decode_rgba(png_bytes: &[u8]) -> (u32, u32, Vec<u8>) {
    let mut decoder = png::Decoder::new(std::io::Cursor::new(png_bytes));
    decoder.set_transformations(png::Transformations::EXPAND | png::Transformations::ALPHA);
    let mut reader = decoder.read_info().expect("read info");
    let mut buf = vec![0u8; reader.output_buffer_size().expect("buffer size")];
    let info = reader.next_frame(&mut buf).expect("decode frame");
    buf.truncate(info.buffer_size());
    (info.width, info.height, buf)
}

fn chunk_types(png_bytes: &[u8]) -> Vec<[u8; 4]> {
    let mut types = Vec::new();
    let mut pos = 8;
    while pos + 8 <= png_bytes.len() {
        let len = u32::from_be_bytes(png_bytes[pos..pos + 4].try_into().unwrap()) as usize;
        types.push(png_bytes[pos + 4..pos + 8].try_into().unwrap());
        pos += 12 + len;
    }
    types
}

#[test]
fn encoded_png_decodes_to_the_palette_colors() {
    let palette = vec![[255u8, 0, 0, 255], [0, 255, 0, 128], [0, 0, 255, 255]];
    let indices = vec![0u8, 1, 2, 2, 1, 0];
    for speed in [4u8, 10] {
        let png_bytes = encode_indexed_png_to_vec(3, 2, &indices, &palette, None, false, speed).expect("encode");
        assert_eq!(&png_bytes[..8], &[137, 80, 78, 71, 13, 10, 26, 10]);
        let (w, h, rgba) = decode_rgba(&png_bytes);
        assert_eq!((w, h), (3, 2));
        assert_eq!(rgba, remapped_rgba_from_indices(&indices, &palette));
        assert_eq!(chunk_types(&png_bytes), vec![*b"IHDR", *b"PLTE", *b"tRNS", *b"IDAT", *b"IEND"]);
    }
}

#[test]
fn opaque_palette_has_no_trns_and_metadata_precedes_plte() {
    let palette = vec![[10u8, 20, 30, 255], [40, 50, 60, 255]];
    let indices = vec![0u8, 1, 1, 0];
    let meta = PreservedMetadata {
        source_gamma: Some(45455),
        source_chromaticities: None,
        srgb: None,
        pixel_dims: Some(PixelDims { xppu: 2835, yppu: 2835, unit_is_meter: true }),
        icc_profile: None,
        cicp: Some(CodePoints {
            color_primaries: 1,
            transfer_function: 13,
            matrix_coefficients: 0,
            is_video_full_range_image: true,
        }),
        exif_metadata: None,
        text_chunks: vec![],
    };
    let png_bytes = encode_indexed_png_to_vec(2, 2, &indices, &palette, Some(&meta), false, 4).expect("encode");
    assert_eq!(
        chunk_types(&png_bytes),
        vec![*b"IHDR", *b"cICP", *b"pHYs", *b"gAMA", *b"PLTE", *b"IDAT", *b"IEND"]
    );
    let (_, _, rgba) = decode_rgba(&png_bytes);
    assert_eq!(rgba, remapped_rgba_from_indices(&indices, &palette));

    let stripped = encode_indexed_png_to_vec(2, 2, &indices, &palette, Some(&meta), true, 4).expect("encode");
    assert_eq!(chunk_types(&stripped), vec![*b"IHDR", *b"PLTE", *b"IDAT", *b"IEND"]);
}

#[test]
fn srgb_replaces_gamma_and_iccp_is_compressed() {
    let palette = vec![[10u8, 20, 30, 255]];
    let indices = vec![0u8; 4];
    let mut meta = PreservedMetadata {
        source_gamma: Some(45455),
        source_chromaticities: Some([31270, 32900, 64000, 33000, 30000, 60000, 15000, 6000]),
        srgb: Some(0),
        pixel_dims: None,
        icc_profile: Some(vec![7u8; 300]),
        cicp: None,
        exif_metadata: Some(vec![b'M', b'M', 0, 42]),
        text_chunks: vec![],
    };
    let png_bytes = encode_indexed_png_to_vec(2, 2, &indices, &palette, Some(&meta), false, 4).expect("encode");
    assert_eq!(chunk_types(&png_bytes), vec![*b"IHDR", *b"sRGB", *b"eXIf", *b"PLTE", *b"IDAT", *b"IEND"]);
    meta.srgb = None;
    let png_bytes = encode_indexed_png_to_vec(2, 2, &indices, &palette, Some(&meta), false, 4).expect("encode");
    assert_eq!(
        chunk_types(&png_bytes),
        vec![*b"IHDR", *b"gAMA", *b"cHRM", *b"iCCP", *b"eXIf", *b"PLTE", *b"IDAT", *b"IEND"]
    );
    let decoder = png::Decoder::new(std::io::Cursor::new(&png_bytes[..]));
    let reader = decoder.read_info().expect("read info");
    assert_eq!(reader.info().icc_profile.as_deref(), Some(&[7u8; 300][..]));
}

#[test]
fn text_chunks_are_copied_before_idat() {
    let palette = vec![[10u8, 20, 30, 255]];
    let indices = vec![0u8; 1];
    let mut text = Vec::new();
    write_png_chunk(&mut text, *b"tEXt", b"Title\0pixel");
    let meta = PreservedMetadata {
        source_gamma: None,
        source_chromaticities: None,
        srgb: None,
        pixel_dims: None,
        icc_profile: None,
        cicp: None,
        exif_metadata: None,
        text_chunks: vec![text],
    };
    let png_bytes = encode_indexed_png_to_vec(1, 1, &indices, &palette, Some(&meta), false, 10).expect("encode");
    assert_eq!(chunk_types(&png_bytes), vec![*b"IHDR", *b"PLTE", *b"tEXt", *b"IDAT", *b"IEND"]);
}

#[test]
fn raw_encoder_rejects_wrong_packed_length() {
    match encode_indexed_png_raw(3, 2, BitDepth::Two, &vec![0u8; 3], &vec![[0u8; 4]; 4], None, false, 9, 8) {
        Err(AppError::Encode(m)) => assert_eq!(m, "packed data length mismatch: expected=2, actual=3"),
        other => panic!("unexpected {other:?}"),
    }
}

#[test]
fn encoder_reports_packing_errors() {
    let palette = vec![[0u8; 4]; 2];
    match encode_indexed_png_to_vec(2, 2, &vec![0u8, 1, 2, 0], &palette, None, false, 4) {
        Err(AppError::Encode(m)) => assert_eq!(m, "palette index out of range for 1-bit mode: 2"),
        other => panic!("unexpected {other:?}"),
    }
}

#[test]
fn minimum_quality_gate() {
    let range = QualityRange { raw: "60-80".to_string(), min: 60, max: 80 };
    assert!(check_minimum_quality(Some(&range), 60).is_ok());
    assert!(check_minimum_quality(None, 0).is_ok());
    match check_minimum_quality(Some(&range), 59) {
        Err(AppError::QualityTooLow { minimum, actual }) => assert_eq!((minimum, actual), (60, 59)),
        other => panic!("unexpected {other:?}"),
    }
}

#[test]
fn skip_if_larger_gate() {
    assert!(check_skip_if_larger(1000, 999, 999, 100).is_ok());
    match check_skip_if_larger(1000, 1000, 999, 100) {
        Err(AppError::SkipIfLargerRejected { input_bytes, output_bytes, maximum_file_size, quality_score }) => {
            assert_eq!((input_bytes, output_bytes, maximum_file_size, quality_score), (1000, 1000, 999, 100))
        }
        other => panic!("unexpected {other:?}"),
    }
}

fn plain_meta() -> PreservedMetadata {
    PreservedMetadata {
        source_gamma: None,
        source_chromaticities: None,
        srgb: None,
        pixel_dims: None,
        icc_profile: None,
        cicp: None,
        exif_metadata: None,
        text_chunks: vec![],
    }
}

#[test]
fn color_conversion_choices() {
    assert_eq!(color_conversion(None, false), ColorConversion::Keep);
    let mut m = plain_meta();
    assert_eq!(color_conversion(Some(&m), false), ColorConversion::Keep);
    m.source_gamma = Some(45455);
    assert_eq!(color_conversion(Some(&m), false), ColorConversion::Keep);
    let chrm = [31270, 32900, 64000, 33000, 30000, 60000, 15000, 6000];
    m.source_chromaticities = Some(chrm);
    assert_eq!(
        color_conversion(Some(&m), false),
        ColorConversion::FromGammaChromaticities { gamma: 45455, chromaticities: chrm }
    );
    assert_eq!(color_conversion(Some(&m), true), ColorConversion::Keep);
    m.source_gamma = Some(100_001);
    assert_eq!(color_conversion(Some(&m), false), ColorConversion::Keep);
    m.source_gamma = Some(100_000);
    m.srgb = Some(0);
    assert_eq!(color_conversion(Some(&m), false), ColorConversion::Keep);
    m.icc_profile = Some(vec![1, 2, 3]);
    assert_eq!(color_conversion(Some(&m), false), ColorConversion::FromIccProfile);
    m.cicp = Some(CodePoints { color_primaries: 9, transfer_function: 16, matrix_coefficients: 0, is_video_full_range_image: false });
    assert_eq!(color_conversion(Some(&m), false), ColorConversion::Keep);
    m.cicp = Some(CodePoints { color_primaries: 1, transfer_function: 13, matrix_coefficients: 0, is_video_full_range_image: true });
    assert_eq!(color_conversion(Some(&m), false), ColorConversion::FromIccProfile);
}

#[test]
fn converted_metadata_declares_srgb_only() {
    let mut m = plain_meta();
    m.source_gamma = Some(45455);
    m.source_chromaticities = Some([1; 8]);
    m.icc_profile = Some(vec![9]);
    m.exif_metadata = Some(vec![7]);
    mark_converted_to_srgb(&mut m);
    assert_eq!(m.source_gamma, None);
    assert_eq!(m.source_chromaticities, None);
    assert_eq!(m.icc_profile, None);
    assert_eq!(m.srgb, Some(0));
    assert_eq!(m.exif_metadata, Some(vec![7]));
}

fn unpack(packed: &[u8], width: usize, height: usize, bits: usize) -> Vec<u8> {
    let per_byte = 8 / bits;
    let row_bytes = (width + per_byte - 1) / per_byte;
    let mut out = Vec::new();
    for row in 0..height {
        for col in 0..width {
            let byte = packed[row * row_bytes + col / per_byte];
            let shift = 8 - bits * (col % per_byte + 1);
            out.push((byte >> shift) & ((1u16 << bits) - 1) as u8);
        }
    }
    out
}

#[test]
fn packed_rows_unpack_to_the_indices() {
    for (depth, bits) in [(BitDepth::One, 1usize), (BitDepth::Two, 2), (BitDepth::Four, 4), (BitDepth::Eight, 8)] {
        let max = ((1u16 << bits) - 1) as u32;
        for (w, h) in [(1u32, 1u32), (3, 2), (7, 3), (9, 4), (16, 1)] {
            let indices: Vec<u8> = (0..w * h).map(|i| ((i * 7 + 3) % (max + 1)) as u8).collect();
            let packed = pack_indices_by_bit_depth(&indices, w, h, depth).expect("pack");
            assert_eq!(packed.len(), row_byte_count(w, depth) * h as usize);
            assert_eq!(unpack(&packed, w as usize, h as usize, bits), indices);
        }
    }
}

#[test]
fn stripped_encoding_equals_encoding_without_metadata() {
    let palette = vec![[10u8, 20, 30, 255], [40, 50, 60, 128]];
    let indices = vec![0u8, 1, 1, 0, 1, 0];
    let mut meta = plain_meta();
    meta.source_gamma = Some(45455);
    meta.exif_metadata = Some(vec![1, 2, 3]);
    let stripped = encode_indexed_png_to_vec(3, 2, &indices, &palette, Some(&meta), true, 4).expect("encode");
    let bare = encode_indexed_png_to_vec(3, 2, &indices, &palette, None, false, 4).expect("encode");
    assert_eq!(stripped, bare);
}

#[test]
fn decoding_gives_rgba_or_a_decode_error() {
    let palette = vec![[10u8, 20, 30, 255], [200, 100, 0, 128]];
    let indices = vec![0u8, 1, 1, 0];
    let png_bytes = encode_indexed_png_to_vec(2, 2, &indices, &palette, None, false, 4).expect("encode");
    let (w, h, rgba) = decode_png_rgba(&png_bytes).expect("decode");
    assert_eq!((w, h), (2, 2));
    assert_eq!(rgba, remapped_rgba_from_indices(&indices, &palette));
    match decode_png_rgba(&[1, 2, 3]) {
        Err(AppError::Decode(m)) => assert!(m.starts_with("failed to decode PNG: ") && m.len() > 22),
        other => panic!("expected a decode error, got {other:?}"),
    }
    match decoded_or_error(Err("bad".to_string())) {
        Err(AppError::Decode(m)) => assert_eq!(m, "failed to decode PNG: bad"),
        other => panic!("expected a decode error, got {other:?}"),
    }
    assert_eq!(decoded_or_error(Ok((1, 1, vec![1, 2, 3, 4]))).expect("ok"), (1, 1, vec![1, 2, 3, 4]));
}
