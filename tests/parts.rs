use decrypt_mosaic::alphabet::{base_alphabet, build_rev, rotate_alpha, rotation_for_block};
use decrypt_mosaic::block::base47_digits_to_5bytes;
use decrypt_mosaic::checksum::checksum47;
use decrypt_mosaic::xor::xor_with_key;

#[test]
fn rotation_of_first_blocks() {
    assert_eq!(rotation_for_block(0), 11);
    assert_eq!(rotation_for_block(1), 24);
    assert_eq!(rotation_for_block(4), 16);
    assert_eq!(rotation_for_block(47), 11);
    assert_eq!(rotation_for_block(u32::MAX), ((u32::MAX as u64 * 13 + 11) % 47) as u32);
}

#[test]
fn block_zero_uses_alphabet_rotated_by_eleven() {
    let base = base_alphabet();
    assert_eq!(base.len(), 47);
    let r = rotate_alpha(&base, rotation_for_block(0));
    assert_eq!(r[0], 'L');
    assert_eq!(r[46], 'K');
    let s: String = r.iter().collect();
    assert_eq!(s, "LMNOPQRSTUVWXYZ0123456789!@#$%^&*_-?ABCDEFGHIJK");
}

#[test]
fn rotation_wraps_around() {
    let base = base_alphabet();
    assert_eq!(rotate_alpha(&base, 47), base);
    assert_eq!(rotate_alpha(&base, 48)[0], 'B');
}

#[test]
fn reverse_table_maps_symbols_to_positions() {
    let base = base_alphabet();
    let t = build_rev(&base);
    assert_eq!(t.len(), 128);
    assert_eq!(t['A' as usize], Some(0));
    assert_eq!(t['?' as usize], Some(46));
    assert_eq!(t['0' as usize], Some(26));
    assert_eq!(t['a' as usize], None);
    assert_eq!(t['~' as usize], None);
}

#[test]
fn digits_to_bytes() {
    assert_eq!(base47_digits_to_5bytes(&[0; 8]), [0u8; 5]);
    assert_eq!(base47_digits_to_5bytes(&[1, 2, 3, 4, 5, 6, 7, 8]), [123u8, 36, 71, 106, 196]);
}

#[test]
fn digits_to_bytes_truncates_to_forty_bits() {
    assert_eq!(base47_digits_to_5bytes(&[46; 8]), [167u8, 255, 72, 122, 128]);
}

#[test]
fn checksum_of_windows() {
    let four = [
        [72u8, 101, 108, 108, 111],
        [44, 32, 119, 111, 114],
        [108, 100, 33, 33, 33],
        [1, 2, 3, 4, 5],
    ];
    assert_eq!(checksum47(&four), 12);
    assert_eq!(checksum47(&[[1u8, 2, 3, 4, 5], [6, 7, 8, 9, 10]]), 11);
    assert_eq!(checksum47(&[]), 0);
}

#[test]
fn checksum_changes_with_a_single_byte() {
    let a = [[0u8; 5], [0; 5], [0; 5], [0; 5]];
    let mut b = a;
    b[2][3] = 5;
    assert_ne!(checksum47(&a), checksum47(&b));
}

#[test]
fn xor_with_key_exact() {
    assert_eq!(xor_with_key(&[1, 2, 3], "ab"), vec![96u8, 96, 98]);
}

#[test]
fn xor_with_empty_key_passes_through() {
    assert_eq!(xor_with_key(&[1, 2, 3], ""), vec![1u8, 2, 3]);
    assert_eq!(xor_with_key(&[], "key"), Vec::<u8>::new());
}

#[test]
fn xor_round_trip() {
    let data = vec![0u8, 17, 255, 128, 42, 7, 99];
    let once = xor_with_key(&data, "secret");
    assert_ne!(once, data);
    assert_eq!(xor_with_key(&once, "secret"), data);
}

#[test]
fn checksum_digit_can_collide_mod_47() {
    let a = [[0u8; 5], [0; 5], [0; 5], [0; 5]];
    let mut b = a;
    b[1][0] = 47;
    assert_eq!(checksum47(&a), 0);
    assert_eq!(checksum47(&b), 0);
}
