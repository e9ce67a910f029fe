use jpeg_labs::bitreader::BitReader;
use jpeg_labs::decode::RGB;
use jpeg_labs::huffman::build_tree;
use jpeg_labs::huffman::HuffmanTableClass;
use jpeg_labs::huffman::HuffmanTree;
use jpeg_labs::marker::Marker;
use jpeg_labs::mcu::Block;
use jpeg_labs::ppm::PpmWriter;
use jpeg_labs::DecodeError;
use jpeg_labs::Decoder;

/// The canonical count vector and symbols used across the synthetic
/// streams: lengths [0,1,5,1,1,1,1,1,1,0,...] over symbols 0..=11.
fn demo_counts() -> [u8; 16] {
    [0, 1, 5, 1, 1, 1, 1, 1, 1, 0, 0, 0, 0, 0, 0, 0]
}

fn demo_symbols() -> Vec<u8> {
    vec![0, 1, 2, 3, 4, 5, 6, 7, 8, 9, 10, 11]
}

/// A complete baseline 4:4:4 JPEG with the demo Huffman table for DC0
/// and AC0, one quantization table (DC entry `qt_dc`, the rest 1), the
/// given dimensions, optional restart interval, and entropy bytes.
fn build_jpeg(width: u16, height: u16, qt_dc: u8, dri: Option<u16>, entropy: &[u8]) -> Vec<u8> {
    let mut v: Vec<u8> = vec![0xFF, 0xD8];
    // DQT, id 0, 8-bit precision
    v.extend_from_slice(&[0xFF, 0xDB, 0x00, 0x43, 0x00]);
    v.push(qt_dc);
    for _ in 0..63 {
        v.push(1);
    }
    // SOF0: precision 8, dimensions, three 1x1 components on table 0
    v.extend_from_slice(&[0xFF, 0xC0, 0x00, 0x11, 0x08]);
    v.extend_from_slice(&height.to_be_bytes());
    v.extend_from_slice(&width.to_be_bytes());
    v.extend_from_slice(&[0x03, 0x01, 0x11, 0x00, 0x02, 0x11, 0x00, 0x03, 0x11, 0x00]);
    // DHT for DC0 and AC0, same canonical table
    for class in [0x00u8, 0x10u8] {
        v.extend_from_slice(&[0xFF, 0xC4, 0x00, 0x1F, class]);
        v.extend_from_slice(&demo_counts());
        v.extend_from_slice(&demo_symbols());
    }
    if let Some(r) = dri {
        v.extend_from_slice(&[0xFF, 0xDD, 0x00, 0x04]);
        v.extend_from_slice(&r.to_be_bytes());
    }
    // SOS: three components, tables DC0/AC0, baseline spectral selection
    v.extend_from_slice(&[
        0xFF, 0xDA, 0x00, 0x0C, 0x03, 0x01, 0x00, 0x02, 0x00, 0x03, 0x00, 0x00, 0x3F, 0x00,
    ]);
    v.extend_from_slice(entropy);
    v.extend_from_slice(&[0xFF, 0xD9]);
    v
}

#[test]
fn bit_reader() {
    let buf = vec![0xFF, 0x00, 0b10101010, 0b00000000, 0xFF, 0xAA];
    let mut reader = BitReader::new(buf, 0);
    assert_eq!(reader.peek(7).unwrap(), 0b1111111);
    assert_eq!(reader.peek(16).unwrap(), 0b11111111_10101010);
    reader.consume(4);
    assert_eq!(reader.peek(16).unwrap(), 0b1111_10101010_0000);
    reader.consume(4);
    assert_eq!(reader.peek(16).unwrap(), 0b10101010_00000000);
    assert_eq!(reader.read_value(3).unwrap(), 5);
    assert_eq!(reader.read_value(2).unwrap(), -2);
    assert_eq!(reader.peek(11).unwrap(), 0b010_00000000);
}

#[test]
fn peek_split_refills_agree() {
    let bytes = vec![0x12, 0x34, 0x56, 0x78];
    let mut one = BitReader::new(bytes.clone(), 0);
    let mut two = BitReader::new(bytes, 0);
    let direct = one.peek(16).unwrap();
    let _ = two.peek(8).unwrap();
    let split = two.peek(16).unwrap();
    assert_eq!(direct, split);
    assert_eq!(direct, 0x1234);
}

#[test]
fn huffman_canonical_codes() {
    let counts = demo_counts();
    let symbols = demo_symbols();
    let tree = build_tree(&counts, &symbols).unwrap();
    let expect: [(u16, u8, u8); 12] = [
        (0b00, 2, 0),
        (0b010, 3, 1),
        (0b011, 3, 2),
        (0b100, 3, 3),
        (0b101, 3, 4),
        (0b110, 3, 5),
        (0b1110, 4, 6),
        (0b11110, 5, 7),
        (0b111110, 6, 8),
        (0b1111110, 7, 9),
        (0b11111110, 8, 10),
        (0b111111110, 9, 11),
    ];
    for (code, len, sym) in expect {
        let window = code << (16 - len);
        assert_eq!(tree.get(window), (len as u8, sym));
        // also the far end of the code's window range
        let window_hi = window | ((1u32 << (16 - len)) - 1) as u16;
        assert_eq!(tree.get(window_hi), (len as u8, sym));
    }
    // windows past the covered region hold no valid code
    assert_eq!(tree.get(0xFFFF).0, 0);
    assert_eq!(tree.get(0xFF80).0, 0);
}

#[test]
fn huffman_insert_lookup() {
    let mut map = HuffmanTree::new();
    map.insert(0b00, 2, 0);
    map.insert(0b010, 3, 1);
    assert_eq!(map.get(0), (2, 0));
    assert_eq!(map.get(0b010 << 13), (3, 1));
    assert_eq!(map.get(0xFFFF).0, 0);
}

#[test]
fn huffman_overlong_codes_rejected() {
    // 3 codes of length 1 cannot exist
    let counts: [u8; 16] = [3, 0, 0, 0, 0, 0, 0, 0, 0, 0, 0, 0, 0, 0, 0, 0];
    let symbols = vec![1, 2, 3];
    assert_eq!(build_tree(&counts, &symbols), Err(DecodeError::MalformedStream));
}

#[test]
fn marker_scan() {
    let data = vec![0x00, 0x12, 0xFF, 0x00, 0x55, 0xFF, 0xFF, 0xFF, 0xD8, 0xFF, 0xC4];
    let mut dec = Decoder::new(data);
    assert_eq!(dec.next_marker(), Ok(Marker::SOI));
    assert_eq!(dec.next_marker(), Ok(Marker::DHT));
    assert_eq!(dec.next_marker(), Err(DecodeError::Truncated));
}

#[test]
fn marker_unknown_byte() {
    let mut dec = Decoder::new(vec![0xFF, 0x01]);
    assert_eq!(dec.next_marker(), Err(DecodeError::MalformedStream));
}

#[test]
fn dqt_parses_values() {
    let mut seg = vec![0x00, 0x43, 0x00];
    for i in 0..64u8 {
        seg.push(i + 1);
    }
    let mut dec = Decoder::new(seg);
    let tables = dec.read_quantization_table().unwrap();
    assert_eq!(tables.len(), 1);
    assert_eq!(tables[0].id, 0);
    for i in 0..64usize {
        assert_eq!(tables[0].values[i], (i + 1) as i16);
    }
}

#[test]
fn dqt_bad_precision() {
    let seg = vec![0x00, 0x43, 0x20];
    let mut dec = Decoder::new(seg);
    assert_eq!(dec.read_quantization_table(), Err(DecodeError::MalformedStream));
}

#[test]
fn dqt_truncated() {
    let seg = vec![0x00, 0x43, 0x00, 1, 2, 3];
    let mut dec = Decoder::new(seg);
    assert_eq!(dec.read_quantization_table(), Err(DecodeError::Truncated));
}

#[test]
fn sof0_fields() {
    let seg = vec![
        0x00, 0x11, 0x08, 0x04, 0x38, 0x07, 0x80, 0x03, 0x01, 0x22, 0x00, 0x02, 0x11, 0x01, 0x03,
        0x11, 0x01,
    ];
    let mut dec = Decoder::new(seg);
    let sof = dec.read_start_of_frame_0().unwrap();
    assert_eq!(sof.precision, 8);
    assert_eq!(sof.height, 1080);
    assert_eq!(sof.width, 1920);
    assert_eq!(sof.component_infos[0].horizontal_sampling, 2);
    assert_eq!(sof.component_infos[0].vertical_sampling, 2);
    assert_eq!(sof.component_infos[0].quant_table_id, 0);
    assert_eq!(sof.component_infos[1].horizontal_sampling, 1);
    assert_eq!(sof.component_infos[1].quant_table_id, 1);
    assert_eq!(sof.component_infos[2].vertical_sampling, 1);
    assert_eq!(sof.max_horizontal_sampling, 2);
    assert_eq!(sof.max_vertical_sampling, 2);
    assert_eq!(sof.mcu_width(), 16);
    assert_eq!(sof.mcu_height(), 16);
    assert_eq!(sof.mcu_width_num(), 120);
    assert_eq!(sof.mcu_height_num(), 68);
}

#[test]
fn sof0_rejects_precision() {
    let seg = vec![
        0x00, 0x11, 0x0C, 0x04, 0x38, 0x07, 0x80, 0x03, 0x01, 0x22, 0x00, 0x02, 0x11, 0x01, 0x03,
        0x11, 0x01,
    ];
    let mut dec = Decoder::new(seg);
    assert_eq!(dec.read_start_of_frame_0(), Err(DecodeError::UnsupportedFormat));
}

#[test]
fn sof0_rejects_422_sampling() {
    let seg = vec![
        0x00, 0x11, 0x08, 0x04, 0x38, 0x07, 0x80, 0x03, 0x01, 0x21, 0x00, 0x02, 0x11, 0x01, 0x03,
        0x11, 0x01,
    ];
    let mut dec = Decoder::new(seg);
    assert_eq!(dec.read_start_of_frame_0(), Err(DecodeError::UnsupportedFormat));
}

#[test]
fn sof0_lenient_variant() {
    let seg = vec![
        0x00, 0x11, 0x08, 0x04, 0x38, 0x07, 0x80, 0x03, 0x01, 0x22, 0x00, 0x02, 0x11, 0x01, 0x03,
        0x11, 0x01,
    ];
    let mut dec = Decoder::new(seg);
    let sof = dec.read_sof0().unwrap();
    assert_eq!(sof.precision, 8);
    assert_eq!(sof.height, 1080);
    assert_eq!(sof.width, 1920);
    assert_eq!(sof.component_infos[0].horizontal_sampling, 2);
    assert_eq!(sof.component_infos[2].quant_table_id, 1);
}

#[test]
fn sos_fields() {
    let seg = vec![0x00, 0x0C, 0x03, 0x01, 0x00, 0x02, 0x11, 0x03, 0x11, 0x00, 0x3F, 0x00];
    let mut dec = Decoder::new(seg);
    let sos = dec.read_start_of_scan().unwrap();
    assert_eq!(sos.table_mapping[0].dc, HuffmanTableClass::DC0);
    assert_eq!(sos.table_mapping[0].ac, HuffmanTableClass::AC0);
    assert_eq!(sos.table_mapping[1].dc, HuffmanTableClass::DC1);
    assert_eq!(sos.table_mapping[1].ac, HuffmanTableClass::AC1);
    assert_eq!(sos.table_mapping[2].dc, HuffmanTableClass::DC1);
}

#[test]
fn sos_bad_trailer() {
    let seg = vec![0x00, 0x0C, 0x03, 0x01, 0x00, 0x02, 0x11, 0x03, 0x11, 0x00, 0x3E, 0x00];
    let mut dec = Decoder::new(seg);
    assert_eq!(dec.read_start_of_scan(), Err(DecodeError::MalformedStream));
}

#[test]
fn zigzag_permutation() {
    let mut coeffs = [0i16; 64];
    for i in 0..64 {
        coeffs[i] = i as i16;
    }
    let z = Block(coeffs).zigzag();
    let table: [i16; 64] = [
        0, 1, 5, 6, 14, 15, 27, 28, 2, 4, 7, 13, 16, 26, 29, 42, 3, 8, 12, 17, 25, 30, 41, 43, 9,
        11, 18, 24, 31, 40, 44, 53, 10, 19, 23, 32, 39, 45, 52, 54, 20, 22, 33, 38, 46, 51, 55, 60,
        21, 34, 37, 47, 50, 56, 59, 61, 35, 36, 48, 49, 57, 58, 62, 63,
    ];
    for r in 0..8 {
        for c in 0..8 {
            assert_eq!(z.0[r * 8 + c], table[r * 8 + c]);
        }
    }
}

#[test]
fn dequantize_multiplies() {
    let mut coeffs = [0i16; 64];
    coeffs[0] = 3;
    coeffs[63] = -2;
    let mut qt = [2i16; 64];
    qt[63] = 5;
    let d = Block(coeffs).dequantize(&qt);
    assert_eq!(d.0[0], 6);
    assert_eq!(d.0[63], -10);
    assert_eq!(d.0[1], 0);
}

#[test]
fn idct_zero_block_is_zero() {
    let z = Block([0i16; 64]).idct();
    for i in 0..64 {
        assert_eq!(z.0[i], 0);
    }
}

#[test]
fn idct_dc_only_uniform() {
    let mut coeffs = [0i16; 64];
    coeffs[0] = 240;
    let out = Block(coeffs).idct();
    for i in 0..64 {
        // 240 / 8 = 30; the fixed-point kernel gives 29 (within 1 LSB)
        assert_eq!(out.0[i], 29);
    }
}

#[test]
fn upsample_replicates() {
    let mut c = [0i16; 64];
    for i in 0..64 {
        c[i] = i as i16;
    }
    let b = Block(c);
    let q = b.upsample_2x2(0, 0);
    assert_eq!(q.0[0], 0);
    assert_eq!(q.0[1], 0);
    assert_eq!(q.0[2], 1);
    assert_eq!(q.0[8], 0);
    assert_eq!(q.0[9], 0);
    assert_eq!(q.0[17], 8);
    let q2 = b.upsample_2x2(1, 1);
    assert_eq!(q2.0[0], 4 * 8 + 4);
    assert_eq!(q2.0[63], 63);
}

#[test]
fn dc_prediction_with_restart() {
    // Restart interval 2; DC deltas +3, -1, then +5 after the restart:
    // predictors 3, 2, then 5 (not 7).
    let entropy = [0x78, 0x00, 0x80, 0x07, 0xFF, 0xD0, 0x94, 0x00];
    let jpeg = build_jpeg(24, 8, 80, Some(2), &entropy);
    let mut reader = Decoder::new(jpeg).read().unwrap();
    assert_eq!(reader.width(), 24);
    assert_eq!(reader.height(), 8);
    assert_eq!(reader.mcu_width_num(), 3);
    assert_eq!(reader.mcu_height(), 8);
    let expected = [157u8, 147, 177];
    for px in expected {
        let m = reader.next().unwrap().unwrap();
        let line = m.line(0);
        assert_eq!(line.len(), 8);
        assert_eq!(line[0], RGB { r: px, g: px, b: px });
        assert_eq!(line[7], RGB { r: px, g: px, b: px });
    }
    assert_eq!(reader.next().unwrap(), None);
}

#[test]
fn all_zero_block_mid_gray() {
    // DC symbol length 0 then EOB for each component: every sample is
    // Y=0, which converts to R=G=B=128.
    let entropy = [0x00, 0x0F];
    let jpeg = build_jpeg(8, 8, 80, None, &entropy);
    let mut reader = Decoder::new(jpeg).read().unwrap();
    let m = reader.next().unwrap().unwrap();
    for h in 0..8 {
        let line = m.line(h);
        assert_eq!(line.len(), 8);
        for p in line {
            assert_eq!(p, RGB { r: 128, g: 128, b: 128 });
        }
    }
    assert_eq!(reader.next().unwrap(), None);
}

#[test]
fn mcu_cell_count_matches_grid() {
    // 17x9 pixels of 8x8 MCUs: a 3x2 grid, final row and column overhang.
    let entropy = {
        // six all-zero MCUs: 12 zero bits each, 72 bits total, 9 bytes
        [0u8; 9]
    };
    let jpeg = build_jpeg(17, 9, 1, None, &entropy);
    let mut reader = Decoder::new(jpeg).read().unwrap();
    assert_eq!(reader.mcu_width_num(), 3);
    let mut cells = 0;
    while let Some(_m) = reader.next().unwrap() {
        cells += 1;
    }
    assert_eq!(cells, 3 * 2);
}

#[test]
fn decode_is_deterministic() {
    let entropy = [0x78, 0x00, 0x80, 0x07, 0xFF, 0xD0, 0x94, 0x00];
    let jpeg = build_jpeg(24, 8, 80, Some(2), &entropy);
    let mut out1: Vec<u8> = Vec::new();
    let mut out2: Vec<u8> = Vec::new();
    for out in [&mut out1, &mut out2] {
        let mut reader = Decoder::new(jpeg.clone()).read().unwrap();
        while let Some(m) = reader.next().unwrap() {
            for h in 0..8 {
                for p in m.line(h) {
                    out.push(p.r);
                    out.push(p.g);
                    out.push(p.b);
                }
            }
        }
    }
    assert_eq!(out1, out2);
    assert!(!out1.is_empty());
}

#[test]
fn read_rejects_progressive() {
    let jpeg = vec![0xFF, 0xD8, 0xFF, 0xC2, 0x00, 0x0B];
    assert_eq!(
        Decoder::new(jpeg).read().err(),
        Some(DecodeError::UnsupportedFormat)
    );
}

#[test]
fn read_requires_soi() {
    let jpeg = vec![0xFF, 0xC4, 0x00, 0x1F];
    assert_eq!(
        Decoder::new(jpeg).read().err(),
        Some(DecodeError::MalformedStream)
    );
}

#[test]
fn read_value_signed_decoding() {
    // bits: 101 (raw 5, top bit set -> +5), then 01 (raw 1 -> 1-3 = -2)
    let mut reader = BitReader::new(vec![0b10101000], 0);
    assert_eq!(reader.read_value(3).unwrap(), 5);
    assert_eq!(reader.read_value(2).unwrap(), -2);
    assert_eq!(reader.read_value(0).unwrap(), 0);
}

#[test]
fn ppm_header_and_payload() {
    let mut w = PpmWriter::new(2, 2);
    let header: Vec<u8> = b"P6\n2 2\n255\n".to_vec();
    let pixels = [
        RGB { r: 1, g: 2, b: 3 },
        RGB { r: 4, g: 5, b: 6 },
        RGB { r: 7, g: 8, b: 9 },
        RGB { r: 10, g: 11, b: 12 },
    ];
    w.write_slice(&pixels);
    let bytes = w.into_bytes();
    assert_eq!(&bytes[..header.len()], &header[..]);
    // exactly width * height * 3 payload bytes
    assert_eq!(bytes.len() - header.len(), 2 * 2 * 3);
    assert_eq!(&bytes[header.len()..], &[1, 2, 3, 4, 5, 6, 7, 8, 9, 10, 11, 12]);
}

#[test]
fn ppm_wide_dimensions() {
    let w = PpmWriter::new(1920, 1080);
    let bytes = w.into_bytes();
    assert_eq!(&bytes[..], b"P6\n1920 1080\n255\n");
}
