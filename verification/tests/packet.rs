use simp_protocol::packet::{Packet, END_BYTE, ESCAPE_BYTE, ESCAPE_XOR, START_BYTE};

#[test]
fn test_packet_creation() {
    let payload = vec![0x01, 0x02, 0x03];
    let packet = Packet::new(payload.clone());

    assert_eq!(packet.start_byte, START_BYTE);
    assert_eq!(packet.end_byte, END_BYTE);
    assert_eq!(packet.length, packet.payload.len() as u8);
    assert_eq!(packet.checksum, Packet::calculate_checksum(&packet.payload));
    assert_eq!(packet.payload, Packet::escape_payload(&payload));
}

#[test]
fn test_checksum_calculation() {
    let payload = vec![0x01, 0x02, 0x03];
    let checksum = Packet::calculate_checksum(&payload);
    assert_eq!(checksum, 0x01 + 0x02 + 0x03);
}

#[test]
fn test_checksum_wraps_at_256() {
    // 150 + 150 = 300, and 300 mod 256 = 44
    let payload = vec![150, 150];
    assert_eq!(Packet::calculate_checksum(&payload), 44);
}

#[test]
fn test_escaping_payload() {
    let payload = vec![START_BYTE, 0x01, END_BYTE, ESCAPE_BYTE, 0x02];
    let escaped_payload = Packet::escape_payload(&payload);
    let expected = vec![
        ESCAPE_BYTE,
        START_BYTE ^ ESCAPE_XOR,
        0x01,
        ESCAPE_BYTE,
        END_BYTE ^ ESCAPE_XOR,
        ESCAPE_BYTE,
        ESCAPE_BYTE ^ ESCAPE_XOR,
        0x02,
    ];
    assert_eq!(escaped_payload, expected);
}

#[test]
fn test_unescaping_payload() {
    let escaped_payload = vec![
        ESCAPE_BYTE,
        START_BYTE ^ ESCAPE_XOR,
        0x01,
        ESCAPE_BYTE,
        END_BYTE ^ ESCAPE_XOR,
        ESCAPE_BYTE,
        ESCAPE_BYTE ^ ESCAPE_XOR,
        0x02,
    ];
    let unescaped_payload = Packet::unescape_payload(&escaped_payload);
    let expected = vec![START_BYTE, 0x01, END_BYTE, ESCAPE_BYTE, 0x02];
    assert_eq!(unescaped_payload, expected);
}

#[test]
fn test_escape_unescape_all_byte_values() {
    // every byte value once, the three reserved values and the escape
    // byte itself included
    let payload: Vec<u8> = (0..=255).collect();
    let escaped = Packet::escape_payload(&payload);
    assert_eq!(Packet::unescape_payload(&escaped), payload);
}

#[test]
fn test_to_bytes() {
    let payload = vec![0x01, 0x02, 0x03];
    let packet = Packet::new(payload.clone());
    let bytes = packet.to_bytes();

    let mut expected = vec![START_BYTE, packet.length];
    expected.extend_from_slice(&Packet::escape_payload(&payload));
    expected.push(packet.checksum);
    expected.push(END_BYTE);

    assert_eq!(bytes, expected);
}

#[test]
fn test_from_bytes() {
    let payload = vec![0x01, 0x02, 0x03];
    let packet = Packet::new(payload.clone());
    let bytes = packet.to_bytes();

    let parsed_packet = Packet::from_bytes(&bytes).expect("Failed to parse packet");
    assert_eq!(parsed_packet.start_byte, START_BYTE);
    assert_eq!(parsed_packet.end_byte, END_BYTE);
    assert_eq!(parsed_packet.length, packet.length);
    assert_eq!(parsed_packet.checksum, packet.checksum);
    assert_eq!(parsed_packet.payload, payload);
}

#[test]
fn test_from_bytes_roundtrip_with_reserved_bytes() {
    let payload = vec![START_BYTE, END_BYTE, ESCAPE_BYTE, 0x00, 0xFF];
    let bytes = Packet::new(payload.clone()).to_bytes();
    let parsed = Packet::from_bytes(&bytes).expect("Failed to parse packet");
    assert_eq!(parsed.payload, payload);
}

#[test]
fn test_from_bytes_with_invalid_checksum() {
    let payload = vec![0x01, 0x02, 0x03];
    let packet = Packet::new(payload.clone());
    let mut bytes = packet.to_bytes();

    // Store the index of the checksum to avoid borrowing issues
    let checksum_index = bytes.len() - 2;

    // Corrupt the checksum
    bytes[checksum_index] = packet.checksum.wrapping_add(1);

    let result = Packet::from_bytes(&bytes);
    assert!(result.is_err());
    assert_eq!(result.err().unwrap().message(), "Checksum mismatch");
}

#[test]
fn test_from_bytes_with_invalid_structure() {
    let invalid_bytes = vec![0x00, 0x01, 0x02]; // No START_BYTE, no END_BYTE
    let result = Packet::from_bytes(&invalid_bytes);
    assert!(result.is_err());
    assert_eq!(result.err().unwrap().message(), "Invalid packet structure");
}

#[test]
fn test_from_bytes_too_short() {
    let result = Packet::from_bytes(&[START_BYTE, 0x00, END_BYTE]);
    assert_eq!(result.err().unwrap().message(), "Invalid packet structure");
}

#[test]
fn test_from_bytes_wrong_end_delimiter() {
    let payload = vec![0x01, 0x02, 0x03];
    let mut bytes = Packet::new(payload).to_bytes();
    let last = bytes.len() - 1;
    bytes[last] = 0x00;
    let result = Packet::from_bytes(&bytes);
    assert_eq!(result.err().unwrap().message(), "Invalid packet structure");
}
