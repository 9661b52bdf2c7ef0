use lib::zlib;
use lib::zlib::huffman::{decode_symb, HuffmanTree};
use lib::zlib::stream::{Stream, WriteStream};

#[test]
fn zlib_compress() {
    let string: Vec<u8> = "Hello World!".bytes().collect();

    let mut encoded = Vec::new();
    zlib::compress(&string, &mut encoded);

    let mut decoded = Vec::new();
    zlib::decompress(encoded, &mut decoded);

    assert_eq!(string, decoded)
}

#[test]
fn compress_empty_is_fixed_block_with_end_only() {
    let mut encoded = Vec::new();
    zlib::compress(&[], &mut encoded);
    assert_eq!(encoded, vec![0x78, 0x01, 0x03, 0x00, 0x00, 0x00, 0x00, 0x01]);
}

#[test]
fn compress_keeps_what_the_buffer_held() {
    let mut encoded = vec![9u8, 8, 7];
    zlib::compress(b"abc", &mut encoded);
    assert_eq!(&encoded[..3], &[9, 8, 7]);
    assert_eq!(&encoded[3..5], &[0x78, 0x01]);
    let mut decoded = Vec::new();
    let sum = zlib::decompress(encoded[3..].to_vec(), &mut decoded);
    assert_eq!(decoded, b"abc".to_vec());
    assert_eq!(sum, Some(0x024d0127));
}

#[test]
fn compress_roundtrip_with_repeats() {
    let text: Vec<u8> = "abcabcabcabcabc, the cat sat on the mat; the cat sat on the mat again and again and again."
        .bytes()
        .collect();
    let mut encoded = Vec::new();
    zlib::compress(&text, &mut encoded);
    assert!(encoded.len() < text.len() + 6);
    let mut decoded = Vec::new();
    assert!(zlib::decompress(encoded, &mut decoded).is_some());
    assert_eq!(decoded, text);
}

#[test]
fn compress_roundtrip_long_run() {
    let text = vec![b'z'; 1000];
    let mut encoded = Vec::new();
    zlib::compress(&text, &mut encoded);
    assert!(encoded.len() < 40);
    let mut decoded = Vec::new();
    zlib::decompress(encoded, &mut decoded);
    assert_eq!(decoded, text);
}

#[test]
fn decompress_fixed_huffman_stream() {
    let z = vec![
        120, 218, 243, 72, 205, 201, 201, 215, 81, 240, 64, 162, 20, 21, 170, 114, 50, 147, 16, 4, 0,
        211, 71, 12, 9,
    ];
    let mut out = vec![1u8];
    let sum = zlib::decompress(z, &mut out);
    let mut expected = vec![1u8];
    expected.extend_from_slice(b"Hello, Hello, Hello! zlib zlib zlib");
    assert_eq!(out, expected);
    assert_eq!(sum, Some(3544648713));
}

#[test]
fn decompress_stored_stream() {
    let z = vec![
        120, 1, 1, 11, 0, 244, 255, 115, 116, 111, 114, 101, 100, 32, 100, 97, 116, 97, 26, 178, 4, 76,
    ];
    let mut out = Vec::new();
    assert_eq!(zlib::decompress(z, &mut out), Some(447874124));
    assert_eq!(out, b"stored data".to_vec());
}

#[test]
fn decompress_dynamic_huffman_stream() {
    let z = vec![
        120, 218, 205, 203, 209, 1, 128, 16, 20, 70, 225, 85, 254, 22, 104, 150, 30, 44, 64, 17, 21,
        55, 132, 152, 190, 59, 70, 207, 231, 59, 194, 106, 196, 226, 214, 19, 42, 81, 11, 48, 244,
        226, 40, 254, 206, 160, 170, 19, 30, 206, 151, 28, 29, 27, 237, 51, 196, 63, 240, 34, 217,
        249, 14, 197, 168, 185, 199, 194, 184, 170, 57, 13, 29, 112, 185, 88, 40, 241, 187, 231, 233,
        3, 58, 87, 79, 39,
    ];
    let mut expected = Vec::new();
    for _ in 0..4 {
        expected.extend_from_slice(b"The quick brown fox jumps over the lazy dog. ");
    }
    expected.extend_from_slice(b"Pack my box with five dozen liquor jugs!");
    let mut out = Vec::new();
    assert_eq!(zlib::decompress(z, &mut out), Some(978800423));
    assert_eq!(out, expected);
}

#[test]
fn decompress_rejects_bad_header() {
    let mut out = vec![5u8];
    assert_eq!(zlib::decompress(vec![0x78, 0x02, 0x03, 0x00], &mut out), None);
    assert_eq!(out, vec![5u8]);
    assert_eq!(zlib::decompress(vec![], &mut out), None);
    assert_eq!(out, vec![5u8]);
}

#[test]
fn decompress_rejects_bad_checksum() {
    let mut z = Vec::new();
    zlib::compress(b"checksum", &mut z);
    let last = z.len() - 1;
    z[last] ^= 1;
    let mut out = Vec::new();
    assert_eq!(zlib::decompress(z, &mut out), None);
    assert!(out.is_empty());
}

#[test]
fn decompress_rejects_truncated_stream() {
    let mut z = Vec::new();
    zlib::compress(b"truncated stream", &mut z);
    z.truncate(z.len() - 3);
    let mut out = Vec::new();
    assert_eq!(zlib::decompress(z, &mut out), None);
}

#[test]
fn huffman_tree_of_code_lengths() {
    let tree = || HuffmanTree::from_alphabet_and_bl_list(b"ABCDEFGH".to_vec(), vec![3, 3, 3, 3, 3, 2, 4, 4]);
    // F has the code 00, G the code 1110, A the code 010; bits are read from
    // the lowest bit of each byte on.
    assert_eq!(decode_symb(Stream::new(vec![0b0000_0000]), tree()), Some('F'));
    assert_eq!(decode_symb(Stream::new(vec![0b0000_0111]), tree()), Some('G'));
    assert_eq!(decode_symb(Stream::new(vec![0b0000_0010]), tree()), Some('A'));
    assert_eq!(decode_symb(Stream::new(vec![0b0000_1111]), tree()), Some('H'));
    assert_eq!(decode_symb(Stream::new(vec![0x06]), tree()), Some('B'));
}

#[test]
fn huffman_tree_decodes_every_code_from_any_position() {
    let tree = || HuffmanTree::from_alphabet_and_bl_list(b"ABCDEFGH".to_vec(), vec![3, 3, 3, 3, 3, 2, 4, 4]);
    // C = 100, D = 101, E = 110, lowest bit first.
    assert_eq!(decode_symb(Stream::new(vec![0b001]), tree()), Some('C'));
    assert_eq!(decode_symb(Stream::new(vec![0b101]), tree()), Some('D'));
    assert_eq!(decode_symb(Stream::new(vec![0b011]), tree()), Some('E'));
    // After one bit already read, the code 00 of F follows.
    let mut s = Stream::new(vec![0b001]);
    assert_eq!(s.read_bit(), 1);
    assert_eq!(decode_symb(s, tree()), Some('F'));
}

#[test]
fn huffman_insert_then_decode() {
    let tree = || {
        let mut t = HuffmanTree::new();
        t.insert(0b1, 1, 'x');
        t.insert(0b00, 2, 'y');
        t
    };
    assert_eq!(decode_symb(Stream::new(vec![0b1]), tree()), Some('x'));
    assert_eq!(decode_symb(Stream::new(vec![0b0]), tree()), Some('y'));
}

#[test]
fn stream_reads_bits_lowest_first() {
    let mut s = Stream::new(vec![0b1010_1101, 0x34, 0x12, 0xFF]);
    assert_eq!(s.read_bit(), 1);
    assert_eq!(s.read_bit(), 0);
    assert_eq!(s.read_bits(3), 0b011);
    s.align_to_byte();
    assert_eq!(s.read_bytes(2), 0x1234);
    assert_eq!(s.read_byte(), 0xFF);
}

#[test]
fn stream_read_byte_skips_partial_byte() {
    let mut s = Stream::new(vec![0xAB, 0xCD]);
    assert_eq!(s.read_bits(4), 0xB);
    assert_eq!(s.read_byte(), 0xCD);
}

#[test]
fn write_stream_packs_bits_lowest_first() {
    let mut w = WriteStream::new();
    w.write_bit(1);
    w.write_bits(0b10, 2, false);
    w.write_bits(0b101, 3, true);
    w.flush();
    assert_eq!(w.get_bytes(), vec![0b0010_1101]);
}

#[test]
fn write_stream_keeps_whole_bytes_before_flush() {
    let mut w = WriteStream::new();
    w.write_bits(0xABCD, 16, false);
    w.write_bit(1);
    assert_eq!(w.get_bytes(), vec![0xCD, 0xAB]);
    w.flush();
    assert_eq!(w.get_bytes(), vec![0xCD, 0xAB, 0x01]);
}

#[test]
fn compress_roundtrip_every_byte_value() {
    let mut data: Vec<u8> = (0..=255u8).collect();
    data.extend((0..=255u8).rev());
    data.push(144);
    let mut encoded = Vec::new();
    zlib::compress(&data, &mut encoded);
    let mut decoded = Vec::new();
    assert!(zlib::decompress(encoded, &mut decoded).is_some());
    assert_eq!(decoded, data);
}

#[test]
fn compress_high_byte_uses_the_standard_fixed_code() {
    // Literal 144 has the 9-bit code 110010000 of RFC 1951.
    let mut encoded = Vec::new();
    zlib::compress(&[144u8], &mut encoded);
    let mut decoded = Vec::new();
    assert_eq!(zlib::decompress(encoded, &mut decoded), Some(0x00910091));
    assert_eq!(decoded, vec![144u8]);
}

#[test]
fn read_bits_gives_back_what_write_bits_wrote() {
    for &(v, n) in &[(0xABCD_1234u32, 32usize), (0x1234, 13), (0xFFFF_FFFF, 7), (5, 0), (1, 1)] {
        let mut w = WriteStream::new();
        w.write_bit(1);
        w.write_bits(v, n, false);
        w.flush();
        let mut s = Stream::new(w.get_bytes());
        assert_eq!(s.read_bit(), 1);
        let mask: u64 = if n == 64 { u64::MAX } else { (1u64 << n) - 1 };
        assert_eq!(s.read_bits(n), (v as u64) & mask);
    }
}
