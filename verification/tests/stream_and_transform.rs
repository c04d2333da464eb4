use blockzip::bitstream::bin_string_LSBF;
use blockzip::bitstream::BitStream;
use blockzip::transform::inverse_transform_blocks;
use blockzip::transform::inverse_BWT;
use blockzip::transform::inverse_MTF;
use blockzip::transform::perform_inverse_transform;
use blockzip::transform::perform_transform;
use blockzip::transform::perform_BWT_MTF;
use blockzip::transform::perform_inverse_MTF_BWT;
use blockzip::transform::transform_blocks;
use blockzip::transform::BWT;
use blockzip::transform::MTF;
use blockzip::CodecError;

/// A deterministic pseudo-random byte sequence for bulk tests.
fn varied_bytes(n: usize) -> Vec<u8> {
    let mut v = Vec::with_capacity(n);
    let mut x: u32 = 0x12345678;
    for _ in 0..n {
        x = x.wrapping_mul(1664525).wrapping_add(1013904223);
        v.push((x >> 24) as u8);
    }
    v
}

#[test]
fn bitstream_write_then_read_back() {
    // write 3 bits 0b101, 5 bits 0b01101, 8 bits 0xAB; the file is
    // exactly two bytes: 0x6D then 0xAB
    let mut w = BitStream::new(Vec::new(), false);
    w.clear_output_file().unwrap();
    w.write_bit_sequence(&vec![0b101u8], 3).unwrap();
    w.write_bit_sequence(&vec![0b01101u8], 5).unwrap();
    w.write_bit_sequence(&vec![0xABu8], 8).unwrap();
    w.flush().unwrap();
    let bytes = w.into_output();
    assert_eq!(bytes, vec![0x6Du8, 0xABu8]);

    let mut r = BitStream::new(bytes, true);
    assert_eq!(r.read_bit_sequence(3).unwrap(), vec![0b101u8]);
    assert_eq!(r.read_bit_sequence(5).unwrap(), vec![0b01101u8]);
    assert_eq!(r.read_bit_sequence(8).unwrap(), vec![0xABu8]);
    assert_eq!(r.read_bit_sequence(1).unwrap(), Vec::<u8>::new());
}

#[test]
fn bitstream_wrong_direction_errors() {
    let mut r = BitStream::new(vec![1, 2, 3], true);
    assert_eq!(r.write_bit_sequence(&vec![1u8], 1), Err(CodecError::WrongDirection));
    assert_eq!(r.flush(), Err(CodecError::WrongDirection));
    assert_eq!(r.clear_output_file(), Err(CodecError::WrongDirection));

    let mut w = BitStream::new(Vec::new(), false);
    assert!(w.read_bit_sequence(8).is_err());
    assert_eq!(w.rewind_read_stream(), Err(CodecError::WrongDirection));
}

#[test]
fn bitstream_rewind_rereads_from_start() {
    let mut r = BitStream::new(vec![0xC3, 0x5A], true);
    let first = r.read_bit_sequence(11).unwrap();
    r.rewind_read_stream().unwrap();
    let again = r.read_bit_sequence(11).unwrap();
    assert_eq!(first, again);
    r.rewind_read_stream().unwrap();
    assert_eq!(r.read_bit_sequence(16).unwrap(), vec![0xC3, 0x5A]);
}

#[test]
fn bitstream_zero_length_write_is_noop() {
    let mut w = BitStream::new(Vec::new(), false);
    w.write_bit_sequence(&vec![0b101u8], 3).unwrap();
    w.write_bit_sequence(&Vec::new(), 0).unwrap();
    w.write_bit_sequence(&vec![0xFFu8], 0).unwrap();
    w.flush().unwrap();
    assert_eq!(w.into_output(), vec![0b101u8]);
}

#[test]
fn bitstream_partial_byte_merging() {
    // bits written across byte boundaries land LSB-first
    let mut w = BitStream::new(Vec::new(), false);
    for _ in 0..3 {
        w.write_bit_sequence(&vec![0b11u8], 2).unwrap();
    }
    w.write_bit_sequence(&vec![0b0u8], 1).unwrap();
    w.write_bit_sequence(&vec![0b1u8], 1).unwrap();
    w.flush().unwrap();
    assert_eq!(w.into_output(), vec![0b10111111u8]);
}

#[test]
fn bin_string_renders_bits_lsb_first() {
    assert_eq!(bin_string_LSBF(&vec![0x6D, 0xAB]), "10110110 11010101");
    assert_eq!(bin_string_LSBF(&Vec::new()), "");
    assert_eq!(bin_string_LSBF(&vec![0x01]), "10000000");
}

#[test]
fn mtf_three_letter_runs() {
    // "AAABBBCCC" becomes [65, 0, 0, 66, 0, 0, 67, 0, 0]
    let input: Vec<u8> = b"AAABBBCCC".to_vec();
    let out = MTF(&input);
    assert_eq!(out, vec![65, 0, 0, 66, 0, 0, 67, 0, 0]);
    assert_eq!(inverse_MTF(&out), input);
}

#[test]
fn mtf_round_trips_varied_input() {
    let input = varied_bytes(2000);
    assert_eq!(inverse_MTF(&MTF(&input)), input);
    let empty: Vec<u8> = Vec::new();
    assert_eq!(inverse_MTF(&MTF(&empty)), empty);
}

#[test]
fn bwt_banana() {
    // "BANANA" gives last column "NNBAAA" and original-rotation index 3
    let input: Vec<u8> = b"BANANA".to_vec();
    let out = BWT(&input);
    let mut expected: Vec<u8> = b"NNBAAA".to_vec();
    expected.push(3);
    expected.push(0);
    assert_eq!(out, expected);
    assert_eq!(inverse_BWT(&out), input);
}

#[test]
fn bwt_round_trips_small_inputs() {
    for input in [
        Vec::new(),
        vec![7u8],
        b"abracadabra".to_vec(),
        b"aaaaaaaaaa".to_vec(),
        varied_bytes(300),
    ] {
        let out = BWT(&input);
        assert_eq!(out.len(), input.len() + 2);
        assert_eq!(inverse_BWT(&out), input);
    }
}

#[test]
fn bwt_mtf_composition_round_trips() {
    let input: Vec<u8> = b"the quick brown fox jumps over the lazy dog".to_vec();
    let t = perform_BWT_MTF(&input);
    assert_eq!(perform_inverse_MTF_BWT(&t), input);
}

#[test]
fn transform_selector_all_ids() {
    let input = varied_bytes(500);
    for id in 0..=3u8 {
        let t = perform_transform(&input, id);
        if id == 0 {
            assert_eq!(t, input);
        }
        assert_eq!(perform_inverse_transform(&t, id), input);
    }
}

#[test]
fn transform_blocks_round_trips_across_frames() {
    // spans two blocks, the second one short
    let input = varied_bytes(5000);
    for id in 0..=3u8 {
        let t = transform_blocks(&input, id);
        assert_eq!(inverse_transform_blocks(&t, id).unwrap(), input);
    }
    let empty: Vec<u8> = Vec::new();
    for id in 0..=3u8 {
        let t = transform_blocks(&empty, id);
        assert_eq!(inverse_transform_blocks(&t, id).unwrap(), empty);
    }
}

#[test]
fn inverse_transform_blocks_rejects_bad_frame() {
    // a one-byte frame cannot carry the 16-bit rotation index
    assert_eq!(inverse_transform_blocks(&vec![0x41u8], 2), Err(CodecError::CorruptedInput));
    // an index pointing past the column is corrupt
    let bad = vec![0x41u8, 0x42, 0x43, 0xFF, 0xFF];
    assert_eq!(inverse_transform_blocks(&bad, 2), Err(CodecError::CorruptedInput));
}
