use u32_split_gates::field::{CircuitConfig, ExtensionElem};
use u32_split_gates::gates::{
    CircuitError, NibbleSplitGate, Split4PartsGate, SplitU16Gate, SplitU8SpreadGate,
};

#[test]
fn split4_generate_slices_and_recomposes() {
    let cfg = CircuitConfig::standard_recursion_config();
    let gate = Split4PartsGate::new_from_config(7, 13, 22, &cfg).unwrap();
    let outs = gate.generate(0xDEAD_BEEF);
    assert_eq!(outs, vec![0x6F, 0x3D, 0x16D, 0x37A]);
    let x = outs[0] + (outs[1] << 7) + (outs[2] << 13) + (outs[3] << 22);
    assert_eq!(x, 0xDEAD_BEEF);
}

#[test]
fn split4_rejects_bad_boundaries() {
    let cfg = CircuitConfig::standard_recursion_config();
    assert_eq!(
        Split4PartsGate::new_from_config(13, 7, 22, &cfg),
        Err(CircuitError::InvalidBitBoundaries)
    );
    assert_eq!(
        Split4PartsGate::new_from_config(0, 13, 22, &cfg),
        Err(CircuitError::InvalidBitBoundaries)
    );
    assert_eq!(
        Split4PartsGate::new_from_config(7, 13, 32, &cfg),
        Err(CircuitError::InvalidBitBoundaries)
    );
}

#[test]
fn split4_gate_shape() {
    let cfg = CircuitConfig::standard_recursion_config();
    let gate = Split4PartsGate::new_from_config(7, 13, 22, &cfg).unwrap();
    assert_eq!(gate.num_wires(), 5);
    assert_eq!(gate.num_constants(), 0);
    assert_eq!(gate.degree(), 1);
    assert_eq!(gate.num_constraints(), 1);
}

#[test]
fn split4_constraint_accepts_generated_witness_and_rejects_tampering() {
    let cfg = CircuitConfig::standard_recursion_config();
    let m = cfg.modulus;
    let gate = Split4PartsGate::new_from_config(8, 16, 24, &cfg).unwrap();
    let x = 0x0102_0304u64;
    let outs = gate.generate(x);
    let mut wires = vec![x];
    wires.extend_from_slice(&outs);
    let cs = gate.eval_unfiltered(&wires, m);
    assert_eq!(cs, vec![0]);
    let mut bad = wires.clone();
    bad[1] += 1;
    let cs = gate.eval_unfiltered(&bad, m);
    assert_ne!(cs[0], 0);
}

#[test]
fn nibble_generate_slices_every_nibble() {
    let cfg = CircuitConfig::standard_recursion_config();
    let gate = NibbleSplitGate::new_from_config(&cfg);
    let outs = gate.generate(0x89AB_CDEF);
    assert_eq!(outs, vec![0xF, 0xE, 0xD, 0xC, 0xB, 0xA, 0x9, 0x8]);
    let mut x = 0u64;
    for i in (0..8).rev() {
        assert!(outs[i] < 16);
        x = (x << 4) | outs[i];
    }
    assert_eq!(x, 0x89AB_CDEF);
}

#[test]
fn nibble_constraint_zero_on_generated_witness() {
    let cfg = CircuitConfig::standard_recursion_config();
    let m = cfg.modulus;
    let gate = NibbleSplitGate::new_from_config(&cfg);
    let x = 0xFEDC_BA98u64;
    let outs = gate.generate(x);
    let mut wires = vec![x];
    wires.extend_from_slice(&outs);
    assert_eq!(gate.eval_unfiltered(&wires, m), vec![0]);
    wires[3] ^= 1;
    assert_ne!(gate.eval_unfiltered(&wires, m)[0], 0);
}

#[test]
fn u16_generate_splits_low_and_high() {
    let cfg = CircuitConfig::standard_recursion_config();
    let gate = SplitU16Gate::new_from_config(&cfg);
    let outs = gate.generate(0x1234_5678);
    assert_eq!(outs, vec![0x5678, 0x1234]);
    assert_eq!(outs[0] + (outs[1] << 16), 0x1234_5678);
    // on a value wider than 32 bits the high half keeps all upper bits
    let outs = gate.generate(0x9_0000_0001);
    assert_eq!(outs, vec![1, 0x9_0000]);
}

#[test]
fn u16_constraint_zero_on_generated_witness() {
    let cfg = CircuitConfig::standard_recursion_config();
    let m = cfg.modulus;
    let gate = SplitU16Gate::new_from_config(&cfg);
    let x = 0xCAFE_F00Du64;
    let outs = gate.generate(x);
    let wires = vec![x, outs[0], outs[1]];
    assert_eq!(gate.eval_unfiltered(&wires, m), vec![0]);
    let wires = vec![x, outs[0] + 1, outs[1]];
    assert_ne!(gate.eval_unfiltered(&wires, m)[0], 0);
}

#[test]
fn u8_spread_generate_deinterleaves() {
    let cfg = CircuitConfig::standard_recursion_config();
    let gate = SplitU8SpreadGate::new_from_config(0, &cfg);
    let outs = gate.generate(0xBEEF);
    assert_eq!(outs, vec![0x1445, 0x5555, 0x6B, 0xFF]);
    assert_eq!(outs[0] + 2 * outs[1], 0xBEEF);
    let outs = gate.generate(0xFFFF);
    assert_eq!(outs, vec![0x5555, 0x5555, 0xFF, 0xFF]);
    let outs = gate.generate(0b10);
    assert_eq!(outs, vec![0, 1, 0, 1]);
}

#[test]
fn u8_spread_constraint_zero_on_generated_witness() {
    let cfg = CircuitConfig::standard_recursion_config();
    let m = cfg.modulus;
    let gate = SplitU8SpreadGate::new_from_config(0, &cfg);
    let x = 0x1234u64;
    let outs = gate.generate(x);
    let mut wires = vec![x];
    wires.extend_from_slice(&outs);
    assert_eq!(gate.eval_unfiltered(&wires, m), vec![0]);
    wires[2] += 1;
    assert_ne!(gate.eval_unfiltered(&wires, m)[0], 0);
}

#[test]
fn extension_eval_is_componentwise() {
    let cfg = CircuitConfig::standard_recursion_config();
    let m = cfg.modulus;
    let gate = SplitU16Gate::new_from_config(&cfg);
    let x = 0xCAFE_F00Du64;
    let outs = gate.generate(x);
    // component 0 satisfies the identity, component 1 is tampered
    let wires = vec![
        ExtensionElem { coeffs: vec![x, x] },
        ExtensionElem { coeffs: vec![outs[0], outs[0] + 1] },
        ExtensionElem { coeffs: vec![outs[1], outs[1]] },
    ];
    let cs = gate.eval_unfiltered_ext(&wires, m);
    assert_eq!(cs.len(), 1);
    assert_eq!(cs[0].coeffs[0], 0);
    assert_ne!(cs[0].coeffs[1], 0);
}
