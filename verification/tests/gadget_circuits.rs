use u32_split_gates::circuit::U32SplitCircuitBuilder;
use u32_split_gates::gadgets::{ch_u32_by_spread, maj_u32_by_spread, xor3_u32_by_spread};
use u32_split_gates::spread::spread_table;

fn run_xor3(a: u64, b: u64, c: u64) -> u64 {
    let mut builder = U32SplitCircuitBuilder::new();
    let wa = builder.add_u32_input();
    let wb = builder.add_u32_input();
    let wc = builder.add_u32_input();
    let idx = builder.register_lookup_table(spread_table());
    let res = xor3_u32_by_spread(&mut builder, wa, wb, wc, idx);
    let data = builder.build();
    let witness = data.generate_witness(&vec![a, b, c]).unwrap();
    assert!(data.check_witness(&witness));
    witness.value(res).unwrap()
}

fn run_maj(a: u64, b: u64, c: u64) -> u64 {
    let mut builder = U32SplitCircuitBuilder::new();
    let wa = builder.add_u32_input();
    let wb = builder.add_u32_input();
    let wc = builder.add_u32_input();
    let idx = builder.register_lookup_table(spread_table());
    let res = maj_u32_by_spread(&mut builder, wa, wb, wc, idx);
    let data = builder.build();
    let witness = data.generate_witness(&vec![a, b, c]).unwrap();
    assert!(data.check_witness(&witness));
    witness.value(res).unwrap()
}

fn run_ch(a: u64, b: u64, c: u64) -> u64 {
    let mut builder = U32SplitCircuitBuilder::new();
    let wa = builder.add_u32_input();
    let wb = builder.add_u32_input();
    let wc = builder.add_u32_input();
    let idx = builder.register_lookup_table(spread_table());
    let res = ch_u32_by_spread(&mut builder, wa, wb, wc, idx);
    let data = builder.build();
    let witness = data.generate_witness(&vec![a, b, c]).unwrap();
    assert!(data.check_witness(&witness));
    witness.value(res).unwrap()
}

#[test]
fn xor3_of_landmark_words() {
    assert_eq!(run_xor3(0xFFFF_FFFF, 0x0000_0000, 0x0F0F_0F0F), 0xF0F0_F0F0);
}

#[test]
fn xor3_matches_bitwise_xor() {
    let cases = [
        (0u64, 0u64, 0u64),
        (0xDEAD_BEEF, 0x0123_4567, 0x89AB_CDEF),
        (0xFFFF_FFFF, 0xFFFF_FFFF, 0xFFFF_FFFF),
        (1, 2, 4),
    ];
    for (a, b, c) in cases {
        assert_eq!(run_xor3(a, b, c), a ^ b ^ c);
    }
}

#[test]
fn maj_of_small_words_sets_all_three_low_bits() {
    assert_eq!(run_maj(0b101, 0b011, 0b110) & 0b111, 0b111);
}

#[test]
fn maj_matches_bitwise_majority() {
    let cases = [(0xDEAD_BEEF_u64, 0x0123_4567_u64, 0x89AB_CDEF_u64), (0, 0xFFFF_FFFF, 0xF0F0_F0F0)];
    for (a, b, c) in cases {
        assert_eq!(run_maj(a, b, c), (a & b) | (a & c) | (b & c));
    }
}

#[test]
fn ch_selects_between_operands() {
    assert_eq!(run_ch(0xFFFF_FFFF, 0xAAAA_AAAA, 0x5555_5555), 0xAAAA_AAAA);
}

#[test]
fn ch_matches_bitwise_choose() {
    let cases = [(0xF0F0_F0F0_u64, 0xDEAD_BEEF_u64, 0x0BAD_F00D_u64), (0, 0xFFFF_FFFF, 0x1234_5678)];
    for (a, b, c) in cases {
        assert_eq!(run_ch(a, b, c), (a & b) | (!a & 0xFFFF_FFFF & c));
    }
}

#[test]
fn witness_generation_is_deterministic() {
    let mut builder = U32SplitCircuitBuilder::new();
    let wa = builder.add_u32_input();
    let wb = builder.add_u32_input();
    let wc = builder.add_u32_input();
    let idx = builder.register_lookup_table(spread_table());
    let _res = xor3_u32_by_spread(&mut builder, wa, wb, wc, idx);
    let data = builder.build();
    let inputs = vec![0x0102_0304u64, 0x0506_0708, 0x090A_0B0C];
    let w1 = data.generate_witness(&inputs).unwrap();
    let w2 = data.generate_witness(&inputs).unwrap();
    assert_eq!(w1, w2);
}

#[test]
fn nibble_split_circuit_reconstructs() {
    let mut builder = U32SplitCircuitBuilder::new();
    let input = builder.add_u32_input();
    let nibbles = builder.add_u32_split_nibbles(input);
    let data = builder.build();
    let w = data.generate_witness(&vec![0x89AB_CDEF]).unwrap();
    assert!(data.check_witness(&w));
    let mut x = 0u64;
    for i in (0..8).rev() {
        let v = w.value(nibbles[i]).unwrap();
        assert!(v < 16);
        x = (x << 4) | v;
    }
    assert_eq!(x, 0x89AB_CDEF);
}
