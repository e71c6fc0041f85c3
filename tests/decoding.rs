use decrypt_mosaic::decoder::{decode_mosaic, decode_with_key, DecodeError};

const FOUR_BLOCKS: &str = "L$DAV@8%~Y^E^!OE@~@7-4#M34~DDV_HPOE~M~~A";

#[test]
fn single_zero_block_decodes_to_five_zero_bytes() {
    assert_eq!(decode_mosaic("LLLLLLLL~~~A"), Ok(vec![0u8, 0, 0, 0, 0]));
}

#[test]
fn two_blocks_with_padding_trimmed() {
    assert_eq!(
        decode_mosaic("LL3FPXWM~Y0&S89@W~~~D"),
        Ok(vec![1u8, 2, 3, 4, 5, 6, 7])
    );
}

#[test]
fn four_blocks_with_valid_checksum() {
    assert_eq!(
        decode_mosaic(FOUR_BLOCKS),
        Ok(vec![
            72u8, 101, 108, 108, 111, 44, 32, 119, 111, 114, 108, 100, 33, 33, 33, 1, 2, 3, 4, 5
        ])
    );
}

#[test]
fn five_blocks_with_checksum_and_padding() {
    let r = decode_mosaic("L$DAV@8%~Y^E^!OE@~@7-4#M34~DDV_HPOE~MQT_Z-&%U~~~C").unwrap();
    assert_eq!(r.len(), 23);
    assert_eq!(&r[20..], &[9u8, 9, 9][..]);
}

#[test]
fn whitespace_only_has_no_trailer() {
    assert_eq!(decode_mosaic("   \t\n "), Err(DecodeError::NoTrailerFound));
    assert_eq!(decode_mosaic(""), Err(DecodeError::NoTrailerFound));
}

#[test]
fn whitespace_between_blocks_is_skipped() {
    assert_eq!(decode_mosaic("  LLLLLLLL~ \n ~~A"), Ok(vec![0u8, 0, 0, 0, 0]));
}

#[test]
fn missing_block_terminator() {
    assert_eq!(decode_mosaic("LLLLLLLL"), Err(DecodeError::MissingBlockTerminator));
    assert_eq!(decode_mosaic("LLLLLLLLL~~~A"), Err(DecodeError::MissingBlockTerminator));
}

#[test]
fn unexpected_end_of_input() {
    assert_eq!(decode_mosaic("LLL"), Err(DecodeError::UnexpectedEndOfInput));
}

#[test]
fn unexpected_terminator() {
    assert_eq!(decode_mosaic("LL~"), Err(DecodeError::UnexpectedTerminator));
    assert_eq!(decode_mosaic("LLLLLLLL~~A"), Err(DecodeError::UnexpectedTerminator));
}

#[test]
fn invalid_digit_character() {
    assert_eq!(
        decode_mosaic("LL+LLLLL~~~A"),
        Err(DecodeError::InvalidDigitCharacter('+'))
    );
}

#[test]
fn invalid_trailer_pad_digit() {
    assert_eq!(decode_mosaic("~~+"), Err(DecodeError::InvalidTrailerPadDigit('+')));
    assert_eq!(decode_mosaic("~~a"), Err(DecodeError::InvalidTrailerPadDigit('a')));
}

#[test]
fn invalid_pad_count() {
    assert_eq!(decode_mosaic("~~B"), Err(DecodeError::InvalidPadCount(1)));
    assert_eq!(decode_mosaic("LLLLLLLL~~~F"), Err(DecodeError::InvalidPadCount(5)));
    assert_eq!(decode_mosaic("LLLLLLLL~~~?"), Err(DecodeError::InvalidPadCount(46)));
}

#[test]
fn largest_pad_count_accepted() {
    assert_eq!(decode_mosaic("LLLLLLLL~~~E"), Ok(vec![0u8]));
}

#[test]
fn empty_stream_with_zero_pad() {
    assert_eq!(decode_mosaic("~~A"), Ok(Vec::<u8>::new()));
}

#[test]
fn trailing_data_after_trailer() {
    assert_eq!(
        decode_mosaic("LLLLLLLL~~~AX"),
        Err(DecodeError::TrailingDataAfterTrailer)
    );
    assert_eq!(decode_mosaic("~~A "), Err(DecodeError::TrailingDataAfterTrailer));
}

#[test]
fn missing_checksum_character() {
    assert_eq!(
        decode_mosaic("L$DAV@8%~Y^E^!OE@~@7-4#M34~DDV_HPOE~"),
        Err(DecodeError::MissingChecksumCharacter)
    );
}

#[test]
fn invalid_checksum_character() {
    assert_eq!(
        decode_mosaic("L$DAV@8%~Y^E^!OE@~@7-4#M34~DDV_HPOE~+~~A"),
        Err(DecodeError::InvalidChecksumChar('+'))
    );
}

#[test]
fn checksum_mismatch_on_wrong_symbol() {
    assert_eq!(
        decode_mosaic("L$DAV@8%~Y^E^!OE@~@7-4#M34~DDV_HPOE~N~~A"),
        Err(DecodeError::ChecksumMismatch { got: 13, expected: 12 })
    );
}

#[test]
fn checksum_mismatch_on_altered_block() {
    assert_eq!(
        decode_mosaic("M$DAV@8%~Y^E^!OE@~@7-4#M34~DDV_HPOE~M~~A"),
        Err(DecodeError::ChecksumMismatch { got: 12, expected: 40 })
    );
}

#[test]
fn noise_before_digits_terminators_and_checksum_is_ignored() {
    let noisy = "xL$DAVqq@8%z~Y^E^!OE@m~@7-4#M34~DDV_HPOE~abcM~~A";
    assert_eq!(decode_mosaic(noisy), decode_mosaic(FOUR_BLOCKS));
    assert_eq!(decode_mosaic("qLLLLLLLLzz~~~A"), Ok(vec![0u8, 0, 0, 0, 0]));
}

#[test]
fn noise_before_trailer_is_not_skipped() {
    assert_eq!(decode_mosaic("LLLLLLLL~q~~A"), Err(DecodeError::UnexpectedTerminator));
}

#[test]
fn decoding_is_repeatable() {
    assert_eq!(decode_with_key(FOUR_BLOCKS, "k3y"), decode_with_key(FOUR_BLOCKS, "k3y"));
    assert_eq!(decode_mosaic(FOUR_BLOCKS), decode_mosaic(FOUR_BLOCKS));
}

#[test]
fn decode_with_key_masks_the_bytes() {
    assert_eq!(
        decode_with_key("LLLLLLLL~~~A", "ab"),
        Ok(vec![97u8, 98, 97, 98, 97])
    );
    assert_eq!(decode_with_key("LLLLLLLL~~~A", ""), Ok(vec![0u8, 0, 0, 0, 0]));
    assert_eq!(decode_with_key("~~B", "ab"), Err(DecodeError::InvalidPadCount(1)));
}
