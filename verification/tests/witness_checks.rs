use u32_split_gates::circuit::{U32SplitCircuitBuilder, Witness, WitnessError};
use u32_split_gates::field::STANDARD_MODULUS;

#[test]
fn forged_out_of_range_slice_is_rejected_by_range_checks() {
    // a four-part split of x = 5 at boundaries 8/16/24, with range checks
    let mut builder = U32SplitCircuitBuilder::new();
    let input = builder.add_u32_input();
    let _slices = builder.add_u32_split(input, 8, 16, 24);
    let data = builder.build();

    let honest = data.generate_witness(&vec![5]).unwrap();
    assert!(data.check_witness(&honest));
    assert_eq!(honest.rows, vec![vec![5, 0, 0, 0]]);

    // x0 = 261 exceeds its 8-bit range, but the linear sum still matches:
    // 261 + (m - 1)·2^8 = 5 (mod m)
    let forged = Witness { inputs: vec![5], rows: vec![vec![261, STANDARD_MODULUS - 1, 0, 0]] };
    assert!(!data.check_witness(&forged));
}

#[test]
fn forged_wide_half_is_accepted_without_range_checks() {
    // the 16-bit split appends no range checks of its own: a witness that
    // shifts all bits into the low half still satisfies the linear identity,
    // the known gap the caller must close
    let mut builder = U32SplitCircuitBuilder::new();
    let input = builder.add_u32_input();
    let _halves = builder.add_u32_split_u16(input);
    let data = builder.build();

    let honest = data.generate_witness(&vec![0x12345]).unwrap();
    assert!(data.check_witness(&honest));
    assert_eq!(honest.rows, vec![vec![0x2345, 1]]);

    let forged = Witness { inputs: vec![0x12345], rows: vec![vec![0x12345, 0]] };
    assert!(data.check_witness(&forged));
}

#[test]
fn forged_sum_mismatch_is_rejected_by_the_constraint() {
    let mut builder = U32SplitCircuitBuilder::new();
    let input = builder.add_u32_input();
    let _slices = builder.add_u32_split(input, 8, 16, 24);
    let data = builder.build();
    let forged = Witness { inputs: vec![5], rows: vec![vec![6, 0, 0, 0]] };
    assert!(!data.check_witness(&forged));
}

#[test]
fn wrong_input_count_is_reported() {
    let mut builder = U32SplitCircuitBuilder::new();
    let input = builder.add_u32_input();
    let _halves = builder.add_u32_split_u16(input);
    let data = builder.build();
    assert_eq!(data.generate_witness(&vec![1, 2]), Err(WitnessError::InputCountMismatch));
}

#[test]
fn lookup_outside_its_table_names_the_row() {
    let mut builder = U32SplitCircuitBuilder::new();
    let input = builder.add_u32_input();
    let idx = builder.register_lookup_table(vec![10, 11, 12, 13]);
    let _out = builder.add_lookup_from_index(input, idx);
    let data = builder.build();
    let ok = data.generate_witness(&vec![2]).unwrap();
    assert!(data.check_witness(&ok));
    assert_eq!(ok.rows, vec![vec![12]]);
    assert_eq!(
        data.generate_witness(&vec![4]),
        Err(WitnessError::LookupOutOfDomain { row: 0 })
    );
}

#[test]
fn connects_are_enforced() {
    let mut builder = U32SplitCircuitBuilder::new();
    let a = builder.add_u32_input();
    let b = builder.add_u32_input();
    builder.connect(a, b);
    let data = builder.build();
    let equal = data.generate_witness(&vec![7, 7]).unwrap();
    assert!(data.check_witness(&equal));
    let unequal = data.generate_witness(&vec![7, 8]).unwrap();
    assert!(!data.check_witness(&unequal));
}

#[test]
fn arithmetic_rows_compute_in_the_field() {
    let mut builder = U32SplitCircuitBuilder::new();
    let a = builder.add_u32_input();
    let b = builder.add_u32_input();
    let sum = builder.add(a, b);
    let diff = builder.sub(a, b);
    let data = builder.build();
    let w = data.generate_witness(&vec![3, 10]).unwrap();
    assert!(data.check_witness(&w));
    assert_eq!(w.value(sum).unwrap(), 13);
    // 3 - 10 wraps to m - 7
    assert_eq!(w.value(diff).unwrap(), STANDARD_MODULUS - 7);
}
