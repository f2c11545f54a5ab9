use file_types::lz77::LZ77;

#[test]
fn encode_repeated_pattern() {
    let lz77 = LZ77::new(8, 4);
    let (encoded, rest) = lz77.encode(b"abababab".to_vec());
    assert_eq!(encoded, vec![0, 0, 97, 0, 0, 98, 2, 3, 98]);
    assert_eq!(rest, vec![97, 98]);
}

#[test]
fn encode_run_of_one_byte() {
    let lz77 = LZ77::new(8, 4);
    let (encoded, rest) = lz77.encode(b"aaaaaaaaaa".to_vec());
    assert_eq!(encoded, vec![0, 0, 97, 3, 3, 97, 0, 3, 97]);
    assert_eq!(rest, vec![97]);
}

#[test]
fn encode_three_byte_pattern() {
    let lz77 = LZ77::new(6, 3);
    let (encoded, rest) = lz77.encode(b"abcabcabc".to_vec());
    assert_eq!(encoded, vec![0, 0, 97, 0, 0, 98, 0, 0, 99, 0, 2, 99, 0, 2, 99]);
    assert!(rest.is_empty());
}

#[test]
fn short_input_is_left_uncompressed() {
    let lz77 = LZ77::new(1024, 64);
    let data = b"hello hello hello".to_vec();
    let (encoded, rest) = lz77.encode(data.clone());
    assert!(encoded.is_empty());
    assert_eq!(rest, data);
    assert_eq!(lz77.decode(encoded, rest), data);
}

#[test]
fn decode_inverts_encode() {
    let mut data = Vec::new();
    for i in 0u32..5000 {
        data.push(((i * 7 + i / 13) % 251) as u8);
        if i % 17 == 0 {
            data.extend_from_slice(b"lorem ipsum dolor");
        }
    }
    for &(n, l_s) in &[(1024usize, 64usize), (300, 299), (16, 1), (600, 2), (70000, 300)] {
        let lz77 = LZ77::new(n, l_s);
        let (encoded, rest) = lz77.encode(data.clone());
        assert!(rest.len() < l_s);
        assert_eq!(lz77.decode(encoded, rest), data);
    }
}

#[test]
fn decode_known_tokens() {
    let lz77 = LZ77::new(8, 4);
    let data = lz77.decode(vec![0, 0, 97, 3, 3, 97, 0, 3, 97], vec![97]);
    assert_eq!(data, b"aaaaaaaaaa".to_vec());
}

#[test]
fn token_fields_grow_with_the_window() {
    // a search buffer of 300 positions needs two bytes, a look-ahead of 4 one
    let lz77 = LZ77::new(304, 4);
    let data = vec![7u8; 400];
    let (encoded, rest) = lz77.encode(data.clone());
    assert_eq!(encoded.len() % 4, 0);
    assert_eq!(&encoded[..4], &[0, 0, 0, 7]);
    assert_eq!(lz77.decode(encoded, rest), data);
}

#[test]
fn empty_input() {
    let lz77 = LZ77::new(8, 4);
    let (encoded, rest) = lz77.encode(Vec::new());
    assert!(encoded.is_empty());
    assert!(rest.is_empty());
    assert!(lz77.decode(encoded, rest).is_empty());
}
