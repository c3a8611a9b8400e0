use gcs_node::codec::{decode, encode, MESSAGE_LEN};

#[test]
fn encode_lays_out_id_then_clock_big_endian() {
    let msg = encode(0x0102_0304_0506_0708, 0x1112_1314_1516_1718_191a_1b1c_1d1e_1f20);
    assert_eq!(msg.len(), MESSAGE_LEN);
    assert_eq!(
        msg,
        vec![
            0x01, 0x02, 0x03, 0x04, 0x05, 0x06, 0x07, 0x08, 0x11, 0x12, 0x13, 0x14, 0x15, 0x16,
            0x17, 0x18, 0x19, 0x1a, 0x1b, 0x1c, 0x1d, 0x1e, 0x1f, 0x20,
        ]
    );
}

#[test]
fn encode_small_values() {
    let msg = encode(3, 258);
    let mut expected = vec![0u8; 24];
    expected[7] = 3;
    expected[22] = 1;
    expected[23] = 2;
    assert_eq!(msg, expected);
}

#[test]
fn round_trip_extremes() {
    for (id, time) in [(0u64, 0u128), (u64::MAX, u128::MAX), (7, 123_456_789_012_345), (1, 1u128 << 127)] {
        assert_eq!(decode(&encode(id, time)), Some((id, time)));
    }
}

#[test]
fn decode_reads_fixed_layout() {
    let mut bytes = vec![0u8; 24];
    bytes[0] = 1;
    bytes[8] = 2;
    bytes[23] = 5;
    assert_eq!(decode(&bytes), Some((1u64 << 56, (2u128 << 120) + 5)));
}

#[test]
fn decode_rejects_short_and_long_input() {
    assert_eq!(decode(&[]), None);
    assert_eq!(decode(&[0u8; 23]), None);
    assert_eq!(decode(&[0u8; 25]), None);
}
