use stego_lsb::{
    decode_image, encode_image, is_encodable, text_to_bits, to_binary, PixelGrid, StegoError,
};

fn grid(width: u32, height: u32, pixels: &[[u8; 3]]) -> PixelGrid {
    let mut channels = Vec::new();
    for p in pixels {
        channels.extend_from_slice(p);
    }
    PixelGrid::new(width, height, channels).unwrap()
}

fn rand_image() -> PixelGrid {
    grid(5, 4, &[[225, 104, 175]; 20])
}

fn mock_image() -> PixelGrid {
    grid(
        2,
        3,
        &[
            [225, 12, 99],
            [155, 2, 50],
            [99, 51, 15],
            [15, 55, 22],
            [155, 61, 87],
            [63, 30, 17],
        ],
    )
}

// The mock image with "hi" encoded at six bits per channel.
fn encoded_image() -> PixelGrid {
    grid(
        2,
        3,
        &[
            [218, 6, 100],
            [163, 8, 50],
            [76, 35, 8],
            [15, 55, 22],
            [155, 61, 87],
            [63, 30, 17],
        ],
    )
}

#[test]
fn string_to_bits() {
    assert_eq!(text_to_bits(String::from("Hi")), "0100100001101001");
    assert_eq!(text_to_bits(String::from("30")), "0011001100110000");
    assert_eq!(text_to_bits(String::from("@#")), "0100000000100011");
}

#[test]
fn number_to_binary() {
    assert_eq!(to_binary(64), "01000000");
}

#[test]
fn decode_minimum_bits_on_each_color() {
    assert_eq!(decode_image(mock_image(), 0), Err(StegoError::InvalidParameter));
}

#[test]
fn encode_minimum_bits_on_each_color() {
    let r = encode_image(mock_image(), text_to_bits(String::from("hi")), 0);
    assert_eq!(r.err(), Some(StegoError::InvalidParameter));
}

#[test]
fn decode_image_secret() {
    assert_eq!(decode_image(encoded_image(), 6), Ok(String::from("hi")));
}

#[test]
fn error_decode_image_secret() {
    assert_eq!(decode_image(encoded_image(), 7), Err(StegoError::BitWidthMismatch));
}

#[test]
fn error_to_encode_large_secret_into_picture() {
    let r = encode_image(mock_image(), String::from("Heyo"), 1);
    assert_eq!(r.err(), Some(StegoError::PayloadTooLarge));
}

#[test]
fn encode_image_secret() {
    let r = encode_image(mock_image(), String::from("hi"), 6).unwrap();
    assert_eq!(r.channels(), encoded_image().channels());
    assert_eq!(r.width(), 2);
    assert_eq!(r.height(), 3);
}

#[test]
fn encode_and_decode() {
    for i in 1..9 {
        let encoded = encode_image(rand_image(), String::from("hi"), i).unwrap();
        assert_eq!(decode_image(encoded, i), Ok(String::from("hi")));
    }
}

#[test]
fn to_binary_edges() {
    assert_eq!(to_binary(0), "00000000");
    assert_eq!(to_binary(255), "11111111");
    assert_eq!(to_binary(1), "00000001");
    assert_eq!(to_binary(128), "10000000");
}

#[test]
fn text_to_bits_empty_and_multibyte() {
    assert_eq!(text_to_bits(String::new()), "");
    // 'é' is two UTF-8 bytes: 0xC3 0xA9.
    assert_eq!(text_to_bits(String::from("é")), "1100001110101001");
}

#[test]
fn is_encodable_exact_ceiling() {
    // 56 bits at 6 bits per channel need ceil(56 / 6) = 10 channels.
    assert!(is_encodable(4, 6, 56));
    assert!(!is_encodable(3, 6, 56));
    // 48 bits at 8 bits per channel need exactly 6 channels.
    assert!(is_encodable(2, 8, 48));
    assert!(!is_encodable(2, 8, 49));
    assert!(is_encodable(0, 3, 0));
}

#[test]
fn capacity_boundary_exact_fit_and_one_over() {
    // "a" and the marker are 6 bytes, 48 bits: 6 channels at 8 bits, two pixels.
    let g = grid(2, 1, &[[1, 2, 3], [4, 5, 6]]);
    let encoded = encode_image(g, String::from("a"), 8).unwrap();
    assert_eq!(encoded.channels(), &vec![b'a', b'#', b'#', b'#', b'#', b'#']);
    assert_eq!(decode_image(encoded, 8), Ok(String::from("a")));
    // "ab" needs 7 channels.
    let g = grid(2, 1, &[[1, 2, 3], [4, 5, 6]]);
    assert_eq!(
        encode_image(g, String::from("ab"), 8).err(),
        Some(StegoError::PayloadTooLarge)
    );
}

#[test]
fn invalid_bit_widths_are_rejected() {
    for b in [0i8, -1, 9, 127, -128] {
        assert_eq!(
            encode_image(rand_image(), String::from("hi"), b).err(),
            Some(StegoError::InvalidParameter)
        );
        assert_eq!(decode_image(rand_image(), b), Err(StegoError::InvalidParameter));
    }
}

#[test]
fn channels_past_the_payload_are_untouched() {
    let original = rand_image();
    let before = original.channels().clone();
    for b in 1..9i8 {
        let encoded = encode_image(rand_image(), String::from("hi"), b).unwrap();
        // 56 bits need ceil(56 / b) channels.
        let needed = (56 + b as usize - 1) / b as usize;
        assert_eq!(&encoded.channels()[needed..], &before[needed..]);
        assert_ne!(&encoded.channels()[..needed], &before[..needed]);
    }
}

#[test]
fn high_bits_are_kept() {
    let encoded = encode_image(mock_image(), String::from("hi"), 4).unwrap();
    let before = mock_image();
    for (new, old) in encoded.channels().iter().zip(before.channels().iter()) {
        assert_eq!(new >> 4, old >> 4);
    }
}

#[test]
fn width_mismatch_is_reported() {
    for b1 in 1..9i8 {
        for b2 in 1..9i8 {
            if b1 == b2 {
                continue;
            }
            let encoded = encode_image(rand_image(), String::from("hi"), b1).unwrap();
            let r = decode_image(encoded, b2);
            assert!(r.is_err() || r == Ok(String::from("hi")), "{} {}", b1, b2);
        }
    }
    let encoded = encode_image(rand_image(), String::from("hi"), 2).unwrap();
    assert_eq!(decode_image(encoded, 3), Err(StegoError::BitWidthMismatch));
}

#[test]
fn never_encoded_grid_is_a_mismatch() {
    assert_eq!(decode_image(rand_image(), 1), Err(StegoError::BitWidthMismatch));
    assert_eq!(decode_image(mock_image(), 8), Err(StegoError::BitWidthMismatch));
}

#[test]
fn round_trip_utf8_payload() {
    let big = grid(4, 4, &[[10, 20, 30]; 16]);
    for b in 1..9i8 {
        let g = grid(8, 8, &[[200, 100, 50]; 64]);
        let encoded = encode_image(g, String::from("héllo, wörld ✓"), b).unwrap();
        assert_eq!(decode_image(encoded, b), Ok(String::from("héllo, wörld ✓")));
    }
    let encoded = encode_image(big, String::new(), 8).unwrap();
    assert_eq!(decode_image(encoded, 8), Ok(String::new()));
}

#[test]
fn invalid_utf8_before_marker_is_a_mismatch() {
    // Bytes 0xFF then the marker, written whole at eight bits per channel.
    let g = grid(2, 1, &[[0xFF, b'#', b'#'], [b'#', b'#', b'#']]);
    assert_eq!(decode_image(g, 8), Err(StegoError::BitWidthMismatch));
}

#[test]
fn grid_shape_is_checked() {
    assert!(PixelGrid::new(2, 2, vec![0; 11]).is_none());
    assert!(PixelGrid::new(2, 2, vec![0; 12]).is_some());
    assert!(PixelGrid::new(0, 5, Vec::new()).is_some());
}
