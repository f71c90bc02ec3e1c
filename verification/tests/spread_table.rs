use u32_split_gates::spread::{spread_byte, spread_table};

#[test]
fn table_entries_follow_the_bit_formula() {
    let t = spread_table();
    assert_eq!(t.len(), 256);
    for b in 0..256u64 {
        let mut expected = 0u64;
        for i in 0..8 {
            expected += ((b >> i) & 1) * 4u64.pow(i as u32);
        }
        assert_eq!(t[b as usize], expected);
    }
}

#[test]
fn table_landmark_entries() {
    let t = spread_table();
    assert_eq!(t[0], 0);
    assert_eq!(t[1], 1);
    assert_eq!(t[2], 4);
    assert_eq!(t[3], 5);
    assert_eq!(t[0xA5], 0x4411);
    assert_eq!(t[0xFF], 0x5555);
}

#[test]
fn spread_byte_matches_table() {
    let t = spread_table();
    for b in 0..256u64 {
        assert_eq!(spread_byte(b), t[b as usize]);
    }
}
