use simp_protocol::mocks::MockUart;
use simp_protocol::packet::Packet;
use simp_protocol::sbt_client::{SbtClient, SbtResponse};
use simp_protocol::sbt_server::{
    add_argument_to_response, create_response, EchoHandler, Handler, SbtResponseType, SbtServer,
};
use simp_protocol::uart::ACK_BYTE;

/// The handlers the tests register, one variant per behaviour.
enum TestHandler {
    Success,
    InternalError,
}

impl Handler for TestHandler {
    fn handle(&self, request: Vec<u8>) -> Vec<u8> {
        let _ = request;
        match self {
            TestHandler::Success => vec![SbtResponseType::Success as u8],
            TestHandler::InternalError => vec![SbtResponseType::InternalError as u8],
        }
    }
}

#[test]
fn test_receive_request_success() {
    let mut uart = MockUart::new();
    // Set the read data to a valid packet
    // 0x00 is the sequence number. The server uses receive_multiple_packets
    // and this function keeps sequence numbers
    let packet = Packet::new(vec![0x00, 0x01, 0x03]);
    uart.set_read_data(packet.to_bytes());
    let mut server: SbtServer<MockUart, TestHandler> = SbtServer::new(uart);

    let request = server.receive_request().unwrap();
    assert_eq!(request, vec![0x01, 0x03]);
}

#[test]
fn test_receive_request_failure() {
    let mut uart = MockUart::new();
    // Set the read data to a valid packet
    // 0x01 is a wrong first sequence number, the server expects 0x00
    let packet = Packet::new(vec![0x01, 0x01, 0x03]);
    uart.set_read_data(packet.to_bytes());
    let mut server: SbtServer<MockUart, TestHandler> = SbtServer::new(uart);

    let request = server.receive_request().unwrap_err();
    assert_eq!(request.message(), "Packet sequence out of order");
}

#[test]
fn test_process_request_handler_not_found() {
    let mut server: SbtServer<MockUart, TestHandler> = SbtServer::new(MockUart::new());
    let request = vec![0x00, 0x01, 0x03];
    let response = server.process_request(request);
    assert_eq!(response, vec![SbtResponseType::HandlerNotFound as u8, 0]);
}

#[test]
fn test_process_request_invalid_request() {
    let mut server: SbtServer<MockUart, TestHandler> = SbtServer::new(MockUart::new());
    let request = vec![];
    let response = server.process_request(request);
    assert_eq!(response, vec![SbtResponseType::InvalidRequest as u8, 0]);
}

#[test]
fn test_process_request() {
    let mut server: SbtServer<MockUart, TestHandler> = SbtServer::new(MockUart::new());
    server.add_handler(0x00, TestHandler::Success);
    server.add_handler(0x01, TestHandler::InternalError);
    let request = vec![0x00, 0x03];
    let response = server.process_request(request);
    assert_eq!(response, vec![SbtResponseType::Success as u8]);
    let request = vec![0x01, 0x03];
    let response = server.process_request(request);
    assert_eq!(response, vec![SbtResponseType::InternalError as u8]);
}

#[test]
fn test_add_handler_replaces_earlier_one() {
    let mut server: SbtServer<MockUart, TestHandler> = SbtServer::new(MockUart::new());
    server.add_handler(0x00, TestHandler::Success);
    server.add_handler(0x00, TestHandler::InternalError);
    let response = server.process_request(vec![0x00]);
    assert_eq!(response, vec![SbtResponseType::InternalError as u8]);
}

#[test]
fn test_create_response() {
    let response_code = SbtResponseType::Success;
    let arg1 = vec![0x01, 0x02, 0x03];
    let arg2 = vec![0x04, 0x05];
    let response = create_response(response_code, vec![arg1, arg2]);

    assert_eq!(
        response,
        vec![
            0x00, // Success response code
            0x02, // 2 arguments
            0x03, // Length of first argument
            0x01, 0x02, 0x03, // First argument
            0x02, // Length of second argument
            0x04, 0x05 // Second argument
        ]
    );
}

#[test]
fn test_add_argument_to_response() {
    let mut response = create_response(SbtResponseType::Success, vec![]);
    assert_eq!(response, vec![0x00, 0x00]);
    add_argument_to_response(&mut response, vec![0x09, 0x08]);
    assert_eq!(response, vec![0x00, 0x00, 0x02, 0x09, 0x08]);
}

#[test]
fn test_end_to_end_echo() {
    // the client's request, as it stands on the wire: one fragment with
    // sequence byte 0, command 0x01, one argument [0x01, 0x02, 0x03]
    let request_frame = Packet::new(vec![0x00, 0x01, 0x03, 0x01, 0x02, 0x03]).to_bytes();

    // the server receives that request and ACKs its own response send
    let mut server_uart = MockUart::new();
    server_uart.set_read_data(
        request_frame
            .iter()
            .copied()
            .chain(std::iter::once(ACK_BYTE))
            .collect(),
    );
    let mut server: SbtServer<MockUart, EchoHandler> = SbtServer::new(server_uart);
    server.add_handler(0x01, EchoHandler);
    server.run_non_blocking().unwrap();

    // what the server wrote is its response; hand it to the client,
    // after the ACK for the client's own request fragment
    let mut client_uart = MockUart::new();
    let mut client_read = vec![ACK_BYTE];
    client_read.extend(server.get_uart().get_written_data());
    client_uart.set_read_data(client_read);

    let mut client = SbtClient::new(client_uart);
    let response = client
        .send_request(0x01, vec![vec![0x01, 0x02, 0x03]])
        .unwrap();
    assert_eq!(
        response,
        SbtResponse::new(SbtResponseType::Success as u8, vec![vec![0x01, 0x02, 0x03]])
    );
}

#[test]
fn test_end_to_end_handler_not_found() {
    let request_frame = Packet::new(vec![0x00, 0x09]).to_bytes();

    let mut server_uart = MockUart::new();
    server_uart.set_read_data(
        request_frame
            .iter()
            .copied()
            .chain(std::iter::once(ACK_BYTE))
            .collect(),
    );
    let mut server: SbtServer<MockUart, TestHandler> = SbtServer::new(server_uart);
    server.run_non_blocking().unwrap();

    let mut client_read = vec![ACK_BYTE];
    client_read.extend(server.get_uart().get_written_data());
    let mut client_uart = MockUart::new();
    client_uart.set_read_data(client_read);

    let mut client = SbtClient::new(client_uart);
    let response = client.send_request(0x09, vec![]).unwrap();
    assert_eq!(
        response,
        SbtResponse::new(SbtResponseType::HandlerNotFound as u8, vec![])
    );
}

#[test]
fn test_echo_handler_shapes_response() {
    // the echo handler answers Success with one argument: the raw bytes
    // it was handed back verbatim
    let response = EchoHandler.handle(vec![0x03, 0x01, 0x02, 0x03]);
    assert_eq!(response, vec![0x00, 0x01, 0x03, 0x01, 0x02, 0x03]);
}

#[test]
fn test_run_non_blocking_signals_invalid_request() {
    // an out-of-order fragment: the request cannot be reassembled, so the
    // server writes one raw InvalidRequest status byte and carries on
    let mut uart = MockUart::new();
    uart.set_read_data(Packet::new(vec![0x05, 0x01]).to_bytes());
    let mut server: SbtServer<MockUart, TestHandler> = SbtServer::new(uart);
    server.run_non_blocking().unwrap();
    assert_eq!(
        server.get_uart().get_written_data(),
        vec![SbtResponseType::InvalidRequest as u8]
    );
}
