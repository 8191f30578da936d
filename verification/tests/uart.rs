use simp_protocol::error::SbtError;
use simp_protocol::mocks::MockUart;
use simp_protocol::packet::Packet;
use simp_protocol::uart::{
    receive_multiple_packets, receive_packet, send_multiple_packets_with_ack, send_packet,
    send_packet_with_ack, Uart, ACK_BYTE, NACK_BYTE,
};

/// A channel whose writes always fail and whose reads never yield.
struct BrokenUart;

impl Uart for BrokenUart {
    fn write(&mut self, _data: &[u8]) -> Result<usize, SbtError> {
        Err(SbtError::WriteFailure)
    }

    fn read(&mut self) -> Option<u8> {
        None
    }
}

#[test]
fn test_send_packet() {
    let mut uart = MockUart::new();
    let packet = Packet::new(vec![0x01, 0x02, 0x03]);

    let result = send_packet(&mut uart, &packet);
    assert!(result.is_ok());

    // Verify that the correct data was "sent"
    let expected_data = packet.to_bytes();
    assert_eq!(uart.get_written_data(), expected_data);
}

#[test]
fn test_send_packet_write_failure() {
    let mut uart = BrokenUart;
    let packet = Packet::new(vec![0x01, 0x02, 0x03]);
    let result = send_packet(&mut uart, &packet);
    assert_eq!(result.err().unwrap().message(), "Failed to send packet");
}

#[test]
fn test_send_packet_with_ack_write_failure() {
    // a channel that refuses writes fails the acknowledged send with the
    // write error, not the retry timeout
    let mut uart = BrokenUart;
    let packet = Packet::new(vec![0x01, 0x02, 0x03]);
    let result = send_packet_with_ack(&mut uart, &packet, 3, 10);
    assert_eq!(result.err().unwrap().message(), "Failed to send packet");
}

#[test]
fn test_send_packet_with_ack_success() {
    let mut uart = MockUart::new();
    let packet = Packet::new(vec![0x01, 0x02, 0x03]);

    // Set the mock to return an ACK after the packet is sent
    uart.set_read_data(vec![ACK_BYTE]);

    let result = send_packet_with_ack(&mut uart, &packet, 3, 500);
    assert!(result.is_ok());

    // Verify that the correct data was "sent"
    let expected_data = packet.to_bytes();
    assert_eq!(uart.get_written_data(), expected_data);
}

#[test]
fn test_send_packet_with_ack_failure() {
    let mut uart = MockUart::new();
    let packet = Packet::new(vec![0x01, 0x02, 0x03]);

    // Set the mock to return nothing (no ACK or NACK)
    uart.set_read_data(vec![]);

    let result = send_packet_with_ack(&mut uart, &packet, 3, 500);
    assert!(result.is_err());
    assert_eq!(
        result.err().unwrap().message(),
        "Failed to send packet after retries"
    );

    // Verify that the packet was sent 3 times due to retries
    let expected_data = packet.to_bytes();
    let expected_sent_data = expected_data.repeat(3);
    assert_eq!(uart.get_written_data(), expected_sent_data);
}

#[test]
fn test_send_packet_with_ack_after_nack() {
    let mut uart = MockUart::new();
    let packet = Packet::new(vec![0x01, 0x02, 0x03]);

    // A NACK ends the first window at once; the second attempt is ACKed.
    uart.set_read_data(vec![NACK_BYTE, ACK_BYTE]);

    let result = send_packet_with_ack(&mut uart, &packet, 3, 500);
    assert!(result.is_ok());

    let expected_sent_data = packet.to_bytes().repeat(2);
    assert_eq!(uart.get_written_data(), expected_sent_data);
}

#[test]
fn test_send_packet_with_ack_ignores_other_bytes() {
    let mut uart = MockUart::new();
    let packet = Packet::new(vec![0x01, 0x02, 0x03]);

    // Out-of-band bytes during the ACK wait are discarded, not buffered.
    uart.set_read_data(vec![0x42, 0x99, ACK_BYTE]);

    let result = send_packet_with_ack(&mut uart, &packet, 3, 500);
    assert!(result.is_ok());
    assert_eq!(uart.get_written_data(), packet.to_bytes());
}

#[test]
fn test_receive_packet_success() {
    let mut uart = MockUart::new();
    let packet = Packet::new(vec![0x01, 0x02, 0x03]);

    // Set the mock to provide the bytes of a complete packet
    uart.set_read_data(packet.to_bytes());

    let result = receive_packet(&mut uart);
    assert!(result.is_ok());

    // Verify the received packet is as expected
    let received_packet = result.unwrap();
    assert_eq!(received_packet.payload, packet.payload);
}

#[test]
fn test_receive_packet_failure() {
    let mut uart = MockUart::new();

    // Set the mock to provide an incomplete packet
    uart.set_read_data(vec![simp_protocol::packet::START_BYTE, 0x03, 0x01, 0x02]);

    let result = receive_packet(&mut uart);
    assert!(result.is_err());
    assert_eq!(result.err().unwrap().message(), "Failed to receive packet");
}

#[test]
fn test_send_multiple_packets_with_ack() {
    let mut uart = MockUart::new();
    let data = vec![0x02; 800]; // Data larger than 256 bytes

    // Simulate an ACK for each packet sent
    uart.set_read_data(vec![ACK_BYTE; 4]);

    let result = send_multiple_packets_with_ack(&mut uart, &data, 3, 500);
    assert!(result.is_ok());

    // Extract sent data for debugging
    let sent_data = uart.get_written_data();
    println!("Sent Data: {:?}", sent_data);

    // Define the expected number of packets (800 bytes, max 250 payload per packet, so 4 packets)
    let max_payload_size = 250;
    let mut expected_sequence = 0u8;

    // Iterate over chunks of sent data, assuming each packet is prefixed with START_BYTE and ends with END_BYTE
    let mut offset = 0;
    while offset < sent_data.len() {
        assert_eq!(sent_data[offset], simp_protocol::packet::START_BYTE); // Check start byte
        offset += 1;

        let length = sent_data[offset] as usize; // Get the packet length
        offset += 1;

        assert_eq!(sent_data[offset], expected_sequence); // Check sequence number
        offset += 1;

        // Calculate expected payload length
        let payload_length = length - 1; // Length includes sequence byte but not checksum

        // Verify payload bytes
        let payload_end = offset + payload_length;
        assert!(payload_end < sent_data.len());

        let payload = &sent_data[offset..payload_end];
        let expected_payload_start = (expected_sequence as usize) * (max_payload_size - 1);
        let expected_payload_end = expected_payload_start + payload.len();
        let expected_payload = &data[expected_payload_start..expected_payload_end];
        assert_eq!(payload, expected_payload);

        offset = payload_end;

        // Verify checksum
        let checksum_start = offset - payload_length - 1; // sequence byte + payload
        let checksum_data = &sent_data[checksum_start..payload_end];
        let calculated_checksum = Packet::calculate_checksum(checksum_data);
        let actual_checksum = sent_data[offset];
        assert_eq!(actual_checksum, calculated_checksum);
        offset += 1;

        assert_eq!(sent_data[offset], simp_protocol::packet::END_BYTE); // Check end byte
        offset += 1;

        // Increment sequence number, wrapping on overflow
        expected_sequence = expected_sequence.wrapping_add(1);
    }

    // Ensure we processed the correct number of packets
    assert_eq!(expected_sequence, 4); // Should have sent 4 packets
}

#[test]
fn test_receive_multiple_packets() {
    let mut uart = MockUart::new();
    let data = vec![0x01; 600]; // Data larger than 256 bytes

    // Create packets with sequence numbers and set to mock UART
    let mut packet_data = Vec::new();
    let mut sequence = 0u8;
    for chunk in data.chunks(250) {
        let mut chunk_with_seq = vec![sequence];
        chunk_with_seq.extend_from_slice(chunk);
        let packet = Packet::new(chunk_with_seq);
        packet_data.extend(packet.to_bytes());
        sequence = sequence.wrapping_add(1);
    }
    uart.set_read_data(packet_data);

    let result = receive_multiple_packets(&mut uart);
    assert!(result.is_ok());

    let received_data = result.unwrap();
    assert_eq!(received_data, data);
}

#[test]
fn test_receive_multiple_packets_empty_packet() {
    let mut uart = MockUart::new();
    // a frame whose payload cannot even hold the sequence byte
    uart.set_read_data(Packet::new(vec![]).to_bytes());
    let result = receive_multiple_packets(&mut uart);
    assert_eq!(result.err().unwrap().message(), "Empty packet received");
}

#[test]
fn test_receive_multiple_packets_out_of_order_keeps_no_data() {
    let mut uart = MockUart::new();
    // a full first fragment in order, then one with a skipped sequence
    let mut wire = Vec::new();
    let mut first = vec![0u8];
    first.extend_from_slice(&[0x07; 249]);
    wire.extend(Packet::new(first).to_bytes());
    let mut second = vec![5u8];
    second.extend_from_slice(&[0x08; 10]);
    wire.extend(Packet::new(second).to_bytes());
    uart.set_read_data(wire);

    let result = receive_multiple_packets(&mut uart);
    assert_eq!(
        result.err().unwrap().message(),
        "Packet sequence out of order"
    );
}
