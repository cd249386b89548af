use quantization::packing::{
    check_codes, is_valid_bits, level_count, pack_codes, unpack_code, unpack_codes,
};

#[test]
fn valid_bits_are_one_two_four_eight() {
    for bits in 0u32..=16 {
        assert_eq!(is_valid_bits(bits), matches!(bits, 1 | 2 | 4 | 8));
    }
}

#[test]
fn level_count_is_two_to_the_bits() {
    assert_eq!(level_count(1), 2);
    assert_eq!(level_count(2), 4);
    assert_eq!(level_count(4), 16);
    assert_eq!(level_count(8), 256);
}

#[test]
fn pack_one_bit_codes_eight_per_byte() {
    let codes = vec![1u8, 0, 1, 1, 0, 0, 0, 1, 1];
    let record = pack_codes(1, &codes).unwrap();
    assert_eq!(record, vec![0b1000_1101, 0b0000_0001]);
    assert_eq!(unpack_codes(1, &record, 9), codes);
}

#[test]
fn pack_two_bit_codes_four_per_byte() {
    let codes = vec![3u8, 0, 1, 2, 2];
    let record = pack_codes(2, &codes).unwrap();
    assert_eq!(record, vec![3 | (0 << 2) | (1 << 4) | (2 << 6), 2]);
    assert_eq!(unpack_codes(2, &record, 5), codes);
}

#[test]
fn pack_four_bit_codes_two_per_byte() {
    let codes = vec![1u8, 2, 3];
    let record = pack_codes(4, &codes).unwrap();
    assert_eq!(record, vec![0x21, 0x03]);
    assert_eq!(unpack_codes(4, &record, 3), codes);
}

#[test]
fn pack_eight_bit_codes_unchanged() {
    let codes = vec![0u8, 128, 255, 7];
    let record = pack_codes(8, &codes).unwrap();
    assert_eq!(record, codes);
    assert_eq!(unpack_codes(8, &record, 4), codes);
}

#[test]
fn pack_no_codes_gives_no_bytes() {
    for bits in [1u32, 2, 4, 8] {
        assert_eq!(pack_codes(bits, &Vec::new()).unwrap(), Vec::<u8>::new());
    }
}

#[test]
fn pack_refuses_other_widths() {
    for bits in [0u32, 3, 5, 6, 7, 9, 16] {
        assert!(pack_codes(bits, &vec![0u8, 1]).is_none());
    }
}

#[test]
fn pack_refuses_codes_that_do_not_fit() {
    assert!(pack_codes(1, &vec![0u8, 2]).is_none());
    assert!(pack_codes(2, &vec![4u8]).is_none());
    assert!(pack_codes(4, &vec![15u8, 16]).is_none());
    assert!(check_codes(4, &vec![15u8, 0]));
    assert!(!check_codes(4, &vec![15u8, 16]));
}

#[test]
fn unpack_reads_every_place_of_a_byte() {
    let record = vec![0b1110_0100u8];
    assert_eq!(unpack_code(2, &record, 0), 0);
    assert_eq!(unpack_code(2, &record, 1), 1);
    assert_eq!(unpack_code(2, &record, 2), 2);
    assert_eq!(unpack_code(2, &record, 3), 3);
    assert_eq!(unpack_code(4, &record, 0), 4);
    assert_eq!(unpack_code(4, &record, 1), 14);
    assert_eq!(unpack_code(8, &record, 0), 0b1110_0100);
    for k in 0..8 {
        assert_eq!(unpack_code(1, &record, k), (0b1110_0100u8 >> k) & 1);
    }
}

#[test]
fn unpack_undoes_pack_for_every_width_and_length() {
    for bits in [1u32, 2, 4, 8] {
        let levels = level_count(bits);
        for len in 0usize..40 {
            let codes: Vec<u8> = (0..len).map(|k| ((k * 7 + 3) as u32 % levels) as u8).collect();
            let record = pack_codes(bits, &codes).unwrap();
            assert_eq!(record.len(), (len * bits as usize + 7) / 8);
            assert_eq!(unpack_codes(bits, &record, len as u32), codes);
        }
    }
}
