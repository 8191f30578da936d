use simp_protocol::mocks::MockUart;
use simp_protocol::packet::{Packet, ESCAPE_BYTE, ESCAPE_XOR};
use simp_protocol::uart::{receive_multiple_packets, send_multiple_packets_with_ack, ACK_BYTE};

/// Sends `data` as acknowledged fragments over one mock channel, checks
/// the sequence bytes observed on the wire, then feeds everything written
/// into a second mock channel and checks that reassembly returns `data`.
fn roundtrip(data: Vec<u8>) {
    let frag_count = data.len() / 249 + 1;

    let mut sender = MockUart::new();
    sender.set_read_data(vec![ACK_BYTE; frag_count]);
    send_multiple_packets_with_ack(&mut sender, &data, 3, 100).expect("send failed");

    // the sequence bytes on the wire run 0, 1, 2, ... wrapping at 256
    let wire = sender.get_written_data();
    assert_eq!(count_frames_checking_sequence(&wire), frag_count);

    let mut receiver = MockUart::new();
    receiver.set_read_data(wire);
    let received = receive_multiple_packets(&mut receiver).expect("receive failed");
    assert_eq!(received, data);
}

/// Walks the frames of a wire capture, checks that each carries the next
/// sequence byte (wrapping at 256), and returns how many there were.
fn count_frames_checking_sequence(wire: &[u8]) -> usize {
    let mut offset = 0;
    let mut frame = 0usize;
    while offset < wire.len() {
        let length = wire[offset + 1] as usize;
        let seq = if wire[offset + 2] == ESCAPE_BYTE {
            wire[offset + 3] ^ ESCAPE_XOR
        } else {
            wire[offset + 2]
        };
        assert_eq!(seq, (frame % 256) as u8);
        offset += length + 4;
        frame += 1;
    }
    frame
}

#[test]
fn test_roundtrip_empty() {
    roundtrip(Vec::new());
}

#[test]
fn test_roundtrip_249_bytes() {
    roundtrip((0..249).map(|i| (i % 100) as u8).collect());
}

#[test]
fn test_roundtrip_250_bytes() {
    roundtrip((0..250).map(|i| (i % 100) as u8).collect());
}

#[test]
fn test_roundtrip_251_bytes() {
    roundtrip((0..251).map(|i| (i % 100) as u8).collect());
}

#[test]
fn test_roundtrip_600_bytes() {
    roundtrip((0..600).map(|i| (i % 100) as u8).collect());
}

#[test]
fn test_roundtrip_800_bytes() {
    roundtrip((0..800).map(|i| (i % 100) as u8).collect());
}

#[test]
fn test_send_sequence_wraps_at_256() {
    // enough data for 300 fragments, so the sequence byte on the wire
    // wraps past 255 back to 0
    let data = vec![0x01u8; 249 * 300 - 100];
    let frag_count = data.len() / 249 + 1;

    let mut sender = MockUart::new();
    sender.set_read_data(vec![ACK_BYTE; frag_count]);
    send_multiple_packets_with_ack(&mut sender, &data, 3, 100).expect("send failed");

    let wire = sender.get_written_data();
    assert_eq!(count_frames_checking_sequence(&wire), frag_count);
}

#[test]
fn test_receive_sequence_wraps_at_256() {
    // 257 fragments built by hand, so the receiver must accept the
    // sequence byte wrapping past 255 back to 0.  Each full fragment
    // carries one constant byte value, chosen so that no frame's checksum
    // byte collides with the end delimiter.
    let mut wire = Vec::new();
    let mut expected = Vec::new();
    for frame in 0..257 {
        let seq = (frame % 256) as u8;
        let fill = (1..=3u8)
            .find(|&v| {
                let mut payload = vec![seq];
                payload.extend_from_slice(&[v; 249]);
                let escaped = Packet::escape_payload(&payload);
                Packet::calculate_checksum(&escaped) != simp_protocol::packet::END_BYTE
            })
            .unwrap();
        let mut payload = vec![seq];
        payload.extend_from_slice(&[fill; 249]);
        expected.extend_from_slice(&[fill; 249]);
        wire.extend(Packet::new(payload).to_bytes());
    }
    // a terminating short fragment: just the next sequence byte
    wire.extend(Packet::new(vec![(257 % 256) as u8]).to_bytes());

    let mut receiver = MockUart::new();
    receiver.set_read_data(wire);
    let received = receive_multiple_packets(&mut receiver).expect("receive failed");
    assert_eq!(received, expected);
}
