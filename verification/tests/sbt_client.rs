use simp_protocol::mocks::MockUart;
use simp_protocol::packet::Packet;
use simp_protocol::sbt_client::{SbtClient, SbtResponse};
use simp_protocol::uart::ACK_BYTE;

#[test]
fn test_send_request() {
    let mut uart = MockUart::new();
    let packet = Packet::new(vec![0x00, 0x01, 0x01, 0x03, 0x01, 0x02, 0x03]).to_bytes();

    uart.set_read_data(vec![ACK_BYTE].into_iter().chain(packet).collect());
    let mut client = SbtClient::new(uart);
    let response = client
        .send_request(0x01, vec![vec![0x01, 0x02, 0x03]])
        .unwrap();

    assert_eq!(response, SbtResponse::new(0x01, vec![vec![0x01, 0x02, 0x03]]));
}

#[test]
fn test_send_request_multiple_arguments() {
    let mut uart = MockUart::new();
    let packet = Packet::new(vec![
        0x00, 0x01, 0x02, 0x03, 0x01, 0x02, 0x03, 0x05, 0x01, 0x02, 0x04, 0x03, 0x05,
    ])
    .to_bytes();

    uart.set_read_data(vec![ACK_BYTE].into_iter().chain(packet).collect());
    let mut client = SbtClient::new(uart);
    let response = client
        .send_request(0x01, vec![vec![0x01, 0x02, 0x03]])
        .unwrap();

    assert_eq!(
        response,
        SbtResponse::new(
            0x01,
            vec![vec![0x01, 0x02, 0x03], vec![0x01, 0x02, 0x04, 0x03, 0x05]]
        )
    );
}

#[test]
fn test_receive_response_too_short_is_malformed() {
    let mut uart = MockUart::new();
    // the reassembled response body is one lone byte, too short for the
    // status byte and the argument count
    uart.set_read_data(Packet::new(vec![0x00, 0x00]).to_bytes());
    let mut client = SbtClient::new(uart);
    let result = client.receive_response();
    assert_eq!(result.err().unwrap().message(), "Malformed response");
}

#[test]
fn test_receive_response_overrunning_argument_is_malformed() {
    let mut uart = MockUart::new();
    // status 0x00, one argument whose declared length overruns the buffer
    uart.set_read_data(Packet::new(vec![0x00, 0x00, 0x01, 0x05, 0x01]).to_bytes());
    let mut client = SbtClient::new(uart);
    let result = client.receive_response();
    assert_eq!(result.err().unwrap().message(), "Malformed response");
}

#[test]
fn test_responses_with_different_arguments_differ() {
    assert_ne!(
        SbtResponse::new(0x00, vec![vec![0x01]]),
        SbtResponse::new(0x00, vec![vec![0x02]])
    );
    assert_ne!(
        SbtResponse::new(0x00, vec![]),
        SbtResponse::new(0x01, vec![])
    );
}
