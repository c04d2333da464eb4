use blockzip::huffman::HuffmanDecoder;
use blockzip::huffman::HuffmanEncoder;
use blockzip::lzw;
use blockzip::lzw::LZWCoderEnhanced;
use blockzip::CodecError;

/// A deterministic pseudo-random byte sequence for bulk tests.
fn varied_bytes(n: usize) -> Vec<u8> {
    let mut v = Vec::with_capacity(n);
    let mut x: u32 = 0xCAFEF00D;
    for _ in 0..n {
        x = x.wrapping_mul(1664525).wrapping_add(1013904223);
        v.push((x >> 24) as u8);
    }
    v
}

/// Reads the 32-bit little-endian count of byte `b` from a header.
fn header_count(enc: &[u8], b: u8) -> u32 {
    let i = 4 * b as usize;
    enc[i] as u32 + 256 * enc[i + 1] as u32 + 65536 * enc[i + 2] as u32
        + 16777216 * enc[i + 3] as u32
}

#[test]
fn huffman_mississippi() {
    let input: Vec<u8> = b"mississippi".to_vec();
    let enc = HuffmanEncoder::encode(&input);
    assert!(enc.len() > 1024);
    assert_eq!(header_count(&enc, b'i'), 4);
    assert_eq!(header_count(&enc, b'm'), 1);
    assert_eq!(header_count(&enc, b'p'), 2);
    assert_eq!(header_count(&enc, b's'), 4);
    assert_eq!(header_count(&enc, b'x'), 0);
    assert_eq!(HuffmanDecoder::decode(enc).unwrap(), input);
}

#[test]
fn huffman_single_byte_input() {
    let input = vec![42u8];
    let enc = HuffmanEncoder::encode(&input);
    // 1024 header bytes plus one byte holding the single-bit code
    assert_eq!(enc.len(), 1025);
    assert_eq!(HuffmanDecoder::decode(enc).unwrap(), input);
}

#[test]
fn huffman_one_distinct_byte_run() {
    let input = vec![0xEEu8; 300];
    let enc = HuffmanEncoder::encode(&input);
    assert_eq!(enc.len(), 1024 + (300 + 7) / 8);
    assert_eq!(HuffmanDecoder::decode(enc).unwrap(), input);
}

#[test]
fn huffman_empty_input() {
    let input: Vec<u8> = Vec::new();
    let enc = HuffmanEncoder::encode(&input);
    assert_eq!(enc, vec![0u8; 1024]);
    assert_eq!(HuffmanDecoder::decode(enc).unwrap(), input);
}

#[test]
fn huffman_round_trips_bulk() {
    for input in [
        varied_bytes(10_000),
        {
            // heavily skewed: 99% one byte
            let mut v = vec![b'a'; 5000];
            for i in 0..50 {
                v[i * 100] = (i % 256) as u8;
            }
            v
        },
        (0u8..=255).collect::<Vec<u8>>(),
    ] {
        let enc = HuffmanEncoder::encode(&input);
        assert_eq!(HuffmanDecoder::decode(enc).unwrap(), input);
    }
}

#[test]
fn huffman_decode_stops_at_symbol_count() {
    // bytes past the encoded symbols are ignored
    let input: Vec<u8> = b"mississippi".to_vec();
    let mut enc = HuffmanEncoder::encode(&input);
    enc.extend_from_slice(&[0xFF, 0x00, 0xFF]);
    assert_eq!(HuffmanDecoder::decode(enc).unwrap(), input);
}

#[test]
fn huffman_rejects_short_header() {
    assert_eq!(HuffmanDecoder::decode(vec![0u8; 100]), Err(CodecError::CorruptedInput));
    assert_eq!(HuffmanDecoder::decode(Vec::new()), Err(CodecError::CorruptedInput));
}

#[test]
fn huffman_encoding_is_deterministic() {
    let input = varied_bytes(4000);
    assert_eq!(HuffmanEncoder::encode(&input), HuffmanEncoder::encode(&input));
}

#[test]
fn lzw_tobeornot() {
    let input: Vec<u8> = b"TOBEORNOTTOBEORTOBEORNOT".to_vec();
    let enc = lzw::encode(&input, false);
    assert_eq!(enc[0], 0);
    assert_eq!(enc[1], 0xFE);
    assert_eq!(enc[2], 0xFF);
    let codes: Vec<u16> = enc[3..]
        .chunks(2)
        .map(|c| c[0] as u16 + 256 * c[1] as u16)
        .collect();
    assert_eq!(
        codes,
        vec![84, 79, 66, 69, 79, 82, 78, 79, 84, 256, 258, 260, 265, 259, 261, 263]
    );
    assert_eq!(lzw::decode(&enc).unwrap(), input);
}

#[test]
fn lzw_empty_input() {
    for clear in [false, true] {
        let input: Vec<u8> = Vec::new();
        let enc = lzw::encode(&input, clear);
        assert_eq!(enc.len(), 3);
        assert_eq!(lzw::decode(&enc).unwrap(), input);
    }
}

#[test]
fn lzw_round_trips_bulk() {
    for clear in [false, true] {
        for input in [
            vec![9u8],
            varied_bytes(20_000),
            vec![b'z'; 3000],
            (0u8..=255).collect::<Vec<u8>>(),
        ] {
            let enc = lzw::encode(&input, clear);
            assert_eq!(lzw::decode(&enc).unwrap(), input);
        }
    }
}

#[test]
fn lzw_reset_sentinel_appears_and_round_trips() {
    // enough distinct two-byte pairs to overflow the dictionary
    let mut input = Vec::with_capacity(2 * 65536 + 40000);
    for i in 0..=255u16 {
        for j in 0..=255u16 {
            input.push(i as u8);
            input.push(j as u8);
        }
    }
    input.extend(varied_bytes(40000));
    let enc = lzw::encode(&input, true);
    let sentinel = enc[3..]
        .chunks(2)
        .any(|c| c.len() == 2 && c[0] == 0xFF && c[1] == 0xFF);
    assert!(sentinel);
    assert_eq!(lzw::decode(&enc).unwrap(), input);
}

#[test]
fn lzw_frozen_dictionary_round_trips_when_full() {
    let mut input = Vec::with_capacity(2 * 65536 + 40000);
    for i in 0..=255u16 {
        for j in 0..=255u16 {
            input.push(i as u8);
            input.push(j as u8);
        }
    }
    input.extend(varied_bytes(40000));
    let enc = lzw::encode(&input, false);
    let sentinel = enc[3..]
        .chunks(2)
        .any(|c| c.len() == 2 && c[0] == 0xFF && c[1] == 0xFF);
    assert!(!sentinel);
    assert_eq!(lzw::decode(&enc).unwrap(), input);
}

#[test]
fn lzw_rejects_corrupt_streams() {
    // no header
    assert_eq!(lzw::decode(&vec![0u8, 0xFE]), Err(CodecError::CorruptedInput));
    // a dangling half code
    assert_eq!(lzw::decode(&vec![0u8, 0xFE, 0xFF, 7u8]), Err(CodecError::CorruptedInput));
    // an opening code outside the base dictionary
    assert_eq!(
        lzw::decode(&vec![0u8, 0xFE, 0xFF, 0x00, 0x01]),
        Err(CodecError::CorruptedInput)
    );
}

#[test]
fn lzw_encoding_is_deterministic() {
    let input = varied_bytes(6000);
    assert_eq!(lzw::encode(&input, true), lzw::encode(&input, true));
    assert_eq!(lzw::encode(&input, false), lzw::encode(&input, false));
}

#[test]
fn lzw_with_block_transforms_round_trips() {
    let input = varied_bytes(5000);
    for id in 0..=3u8 {
        for clear in [false, true] {
            let enc = lzw::encode_file_bytes(&input, id, clear);
            assert_eq!(lzw::decode_file_bytes(&enc, id).unwrap(), input);
        }
    }
}

#[test]
fn lzw_dictionary_primitives() {
    let mut coder = LZWCoderEnhanced::new(65535, false);
    // the base alphabet is present from the start
    assert_eq!(coder.find_seq_in_dict((65, None)), Some(65));
    assert_eq!(coder.find_seq_in_dict((65, Some(66))), None);
    assert_eq!(coder.get_last_dict_index(), 255);
    assert!(coder.add_seq_to_dict((65, Some(66))));
    assert_eq!(coder.find_seq_in_dict((65, Some(66))), Some(256));
    assert_eq!(coder.get_last_dict_index(), 256);
    assert_eq!(coder.recover_seq_from_dict(256), Some(vec![66, 65]));
    assert_eq!(coder.recover_seq_from_dict(257), None);
    coder.set_init_dict();
    assert_eq!(coder.find_seq_in_dict((65, Some(66))), None);
    assert_eq!(coder.get_last_dict_index(), 255);
}
