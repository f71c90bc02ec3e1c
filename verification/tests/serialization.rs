use u32_split_gates::field::CircuitConfig;
use u32_split_gates::gates::{CircuitError, Split4PartsGate, SplitU8SpreadGate};
use u32_split_gates::serial::{read_u64_le, write_u64_le};

#[test]
fn u64_codec_round_trip() {
    let mut buf: Vec<u8> = Vec::new();
    write_u64_le(&mut buf, 0x0123_4567_89AB_CDEF);
    assert_eq!(buf, vec![0xEF, 0xCD, 0xAB, 0x89, 0x67, 0x45, 0x23, 0x01]);
    let (v, next) = read_u64_le(&buf, 0).unwrap();
    assert_eq!(v, 0x0123_4567_89AB_CDEF);
    assert_eq!(next, 8);
    assert!(read_u64_le(&buf, 1).is_none());
}

#[test]
fn split4_parameters_persist_byte_identically() {
    let cfg = CircuitConfig::standard_recursion_config();
    let gate = Split4PartsGate::new_from_config(7, 13, 22, &cfg).unwrap();
    let mut buf: Vec<u8> = Vec::new();
    gate.serialize(&mut buf);
    assert_eq!(buf.len(), 24);
    let (back, next) = Split4PartsGate::deserialize(&buf, 0).unwrap();
    assert_eq!(back, gate);
    assert_eq!(next, 24);
    let mut twice: Vec<u8> = Vec::new();
    back.serialize(&mut twice);
    assert_eq!(twice, buf);
}

#[test]
fn split4_deserialization_validates_boundaries() {
    let mut buf: Vec<u8> = Vec::new();
    write_u64_le(&mut buf, 13);
    write_u64_le(&mut buf, 7);
    write_u64_le(&mut buf, 22);
    assert_eq!(
        Split4PartsGate::deserialize(&buf, 0),
        Err(CircuitError::InvalidBitBoundaries)
    );
    assert_eq!(
        Split4PartsGate::deserialize(&buf, 8),
        Err(CircuitError::ExhaustedBuffer)
    );
}

#[test]
fn spread_gate_table_index_persists() {
    let cfg = CircuitConfig::standard_recursion_config();
    let gate = SplitU8SpreadGate::new_from_config(3, &cfg);
    let mut buf: Vec<u8> = Vec::new();
    gate.serialize(&mut buf);
    let (back, next) = SplitU8SpreadGate::deserialize(&buf, 0).unwrap();
    assert_eq!(back, gate);
    assert_eq!(next, 8);
}
