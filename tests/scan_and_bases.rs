use manifold_rs::{bit_scan1, create_small_trailing, get_miller_rabin_bases, large_pool_size};

#[test]
fn bit_scan_of_zero_is_none() {
    assert_eq!(bit_scan1(0, 0), None);
    assert_eq!(bit_scan1(0, 17), None);
}

#[test]
fn bit_scan_counts_trailing_zeros() {
    assert_eq!(bit_scan1(1, 0), Some(0));
    assert_eq!(bit_scan1(12, 0), Some(2));
    assert_eq!(bit_scan1(256, 0), Some(8));
    assert_eq!(bit_scan1(1 << 40, 0), Some(40));
    assert_eq!(bit_scan1(3 << 100, 0), Some(100));
    assert_eq!(bit_scan1(-8, 0), Some(3));
    assert_eq!(bit_scan1(i128::MIN, 0), Some(127));
    for x in 1..5000i128 {
        let s = bit_scan1(x, 0).unwrap();
        assert_eq!(s, x.trailing_zeros());
        assert_eq!((x >> s) % 2, 1);
    }
}

#[test]
fn bit_scan_from_an_offset() {
    // 0b1010_0000: from bit 6 the lowest remaining set bit is bit 7.
    assert_eq!(bit_scan1(0b1010_0000, 6), Some(7));
    assert_eq!(bit_scan1(0b1010_0000, 5), Some(5));
    // The shift rounds towards negative infinity before the magnitude is taken.
    assert_eq!(bit_scan1(-3, 1), Some(2));
    assert_eq!(bit_scan1(-1, 200), Some(200));
}

#[test]
fn table_holds_byte_trailing_zeros() {
    let table = create_small_trailing();
    assert_eq!(table.of_byte(0), 8);
    assert_eq!(table.of_byte(1), 0);
    assert_eq!(table.of_byte(128), 7);
    for b in 1..=255u8 {
        assert_eq!(table.of_byte(b), b.trailing_zeros());
    }
}

#[test]
fn scan_strategies_agree() {
    let table = create_small_trailing();
    for shift in 0..128u32 {
        let v: u128 = (1u128 << shift) | (1u128 << 127);
        assert_eq!(table.scan_bytes(v), shift);
        assert_eq!(table.scan_adaptive(v), shift);
    }
    let v: u128 = 0xdead_beef << 77;
    assert_eq!(table.scan_bytes(v), 77);
    assert_eq!(table.scan_adaptive(v), 77);
}

#[test]
fn bases_by_bracket() {
    assert_eq!(get_miller_rabin_bases(-1), Vec::<u32>::new());
    assert_eq!(get_miller_rabin_bases(0), vec![2]);
    assert_eq!(get_miller_rabin_bases(2046), vec![2]);
    assert_eq!(get_miller_rabin_bases(2047), vec![2, 3]);
    assert_eq!(get_miller_rabin_bases(1373653), vec![31, 73]);
    assert_eq!(get_miller_rabin_bases(3215031751), vec![2, 7, 61]);
    assert_eq!(get_miller_rabin_bases(4759123141), vec![2, 13, 23, 1662803]);
    assert_eq!(get_miller_rabin_bases(3825123056546413050), vec![2, 3, 5, 7, 11, 13, 17, 19, 23]);
    assert_eq!(
        get_miller_rabin_bases(3825123056546413051),
        vec![2, 3, 5, 7, 11, 13, 17, 19, 23, 29, 31, 37, 41]
    );
}

#[test]
fn bases_constant_within_a_bracket() {
    assert_eq!(get_miller_rabin_bases(25326001), get_miller_rabin_bases(3215031750));
    assert_eq!(get_miller_rabin_bases(2152302898747), get_miller_rabin_bases(3474749660382));
    assert_ne!(get_miller_rabin_bases(3474749660382), get_miller_rabin_bases(3474749660383));
}

#[test]
fn pool_keeps_one_core_free() {
    assert_eq!(large_pool_size(0), 1);
    assert_eq!(large_pool_size(1), 1);
    assert_eq!(large_pool_size(2), 1);
    assert_eq!(large_pool_size(16), 15);
}
