use console_core::rom::{bytes_to_words, hex_word, rom_image, rom_words, ImageError, ROM_WORDS};

#[test]
fn hex_word_prints_eight_lowercase_digits() {
    assert_eq!(hex_word(0), b"00000000".to_vec());
    assert_eq!(hex_word(0xFFFF_FFFF), b"ffffffff".to_vec());
    assert_eq!(hex_word(0x0BAD_F00D), b"0badf00d".to_vec());
    assert_eq!(hex_word(0x1234_5678), b"12345678".to_vec());
}

#[test]
fn bytes_decode_little_endian() {
    let data = vec![0x78, 0x56, 0x34, 0x12, 0xEF, 0xBE, 0xAD, 0xDE];
    assert_eq!(bytes_to_words(&data), vec![0x1234_5678, 0xDEAD_BEEF]);
}

#[test]
fn a_partial_trailing_word_is_zero_padded() {
    let data = vec![0x01, 0x02];
    assert_eq!(bytes_to_words(&data), vec![0x0000_0201]);
    assert_eq!(bytes_to_words(&Vec::new()), Vec::<u32>::new());
}

#[test]
fn rom_words_pads_to_the_full_store() {
    let words = vec![7, 8];
    let padded = rom_words(&words).unwrap();
    assert_eq!(padded.len(), ROM_WORDS);
    assert_eq!(padded[0], 7);
    assert_eq!(padded[1], 8);
    assert!(padded[2..].iter().all(|w| *w == 0));
}

#[test]
fn an_oversized_program_is_an_error() {
    let words = vec![1u32; ROM_WORDS + 1];
    assert_eq!(rom_words(&words), Err(ImageError::TooManyWords));
    assert_eq!(rom_image(&words), Err(ImageError::TooManyWords));
    let exact = vec![1u32; ROM_WORDS];
    assert!(rom_words(&exact).is_ok());
}

#[test]
fn ten_words_convert_to_the_fixed_line_count() {
    let mut data: Vec<u8> = Vec::new();
    for w in 0..10u32 {
        let word = 0x0101_0101 * (w + 1);
        data.extend_from_slice(&word.to_le_bytes());
    }
    let words = bytes_to_words(&data);
    assert_eq!(words.len(), 10);
    let img = rom_image(&words).unwrap();
    let text = String::from_utf8(img).unwrap();
    let lines: Vec<&str> = text.lines().collect();
    assert_eq!(lines.len(), ROM_WORDS);
    for (i, line) in lines.iter().enumerate() {
        if i < 10 {
            assert_eq!(*line, format!("{:08x}", 0x0101_0101u32 * (i as u32 + 1)));
        } else {
            assert_eq!(*line, "00000000");
        }
    }
}
