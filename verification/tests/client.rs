use base64::Engine;
use lightning_tracker::frame::{FrameHeader, ReadError};
use lightning_tracker::handshake::{
    cookie_headers, handshake_key, handshake_status, probe_request, response_complete,
    HandshakeError,
};
use lightning_tracker::tracker::{tracker_url, LightningTrackerHost};
use lightning_tracker::web_socket::{
    ClientError, Connected, HandshakeOutcome, ProbeOutcome, WebSocketClient, WebSocketError,
};

fn connected_client() -> WebSocketClient<Connected> {
    let client = WebSocketClient::new("wss://ws7.blitzortung.org/").unwrap();
    let detected = match client.detect_requirements(ProbeOutcome::Response(String::from("HTTP/1.1 200 OK\r\n\r\n"))) {
        Ok(d) => d,
        Err(_) => panic!("the probe answered"),
    };
    match detected.connect(HandshakeOutcome::Response(String::from(
        "HTTP/1.1 101 Switching Protocols\r\nUpgrade: websocket\r\n\r\n",
    ))) {
        Ok(c) => c,
        Err(_) => panic!("the server accepted the upgrade"),
    }
}

#[test]
fn new_client_parses_the_url() {
    let client = WebSocketClient::new("wss://ws7.blitzortung.org/").unwrap();
    assert_eq!(client.host(), Some(String::from("ws7.blitzortung.org")));
    assert_eq!(client.connect_port(), 443);
    assert!(!client.is_stream_open());
    let client = WebSocketClient::new("wss://example.com:8443/live").unwrap();
    assert_eq!(client.connect_port(), 8443);
}

#[test]
fn new_client_refuses_a_bad_url() {
    assert_eq!(
        WebSocketClient::new("not a url").err(),
        Some(ClientError::InvalidUrl(url::ParseError::RelativeUrlWithoutBase))
    );
    assert_eq!(
        WebSocketClient::new("").err(),
        Some(ClientError::InvalidUrl(url::ParseError::RelativeUrlWithoutBase))
    );
    assert_eq!(
        WebSocketClient::new("wss://[::1").err(),
        Some(ClientError::InvalidUrl(url::ParseError::InvalidIpv6Address))
    );
}

#[test]
fn disconnected_client_cannot_connect() {
    let client = WebSocketClient::new("wss://ws7.blitzortung.org/").unwrap();
    let back = match client.connect() {
        Ok(_) => panic!("a disconnected client never connects"),
        Err(c) => c,
    };
    assert_eq!(back.host(), Some(String::from("ws7.blitzortung.org")));
}

#[test]
fn detection_needs_a_probe() {
    let client = WebSocketClient::new("wss://ws7.blitzortung.org/").unwrap();
    let client = match client.detect_requirements(ProbeOutcome::NotRequested) {
        Ok(_) => panic!("no probe was made"),
        Err(c) => c,
    };
    assert!(client.detect_requirements(ProbeOutcome::Failed).is_err());
}

#[test]
fn detection_carries_the_cookie_into_the_handshake() {
    let client = WebSocketClient::new("wss://ws7.blitzortung.org/").unwrap();
    let probe = String::from("HTTP/1.1 200 OK\r\nSet-Cookie: session=abc; Path=/\r\n\r\n");
    let detected = match client.detect_requirements(ProbeOutcome::Response(probe)) {
        Ok(d) => d,
        Err(_) => panic!("the probe answered"),
    };
    let request = detected.upgrade_request("dGhlIHNhbXBsZSBub25jZQ==");
    assert_eq!(
        request,
        "GET / HTTP/1.1\r\nHost: ws7.blitzortung.org\r\nUpgrade: websocket\r\nConnection: Upgrade\r\nSec-WebSocket-Key: dGhlIHNhbXBsZSBub25jZQ==\r\nSec-WebSocket-Version: 13\r\nCookie: session=abc\r\n\r\n"
    );
}

#[test]
fn handshake_outcome_decides_the_state() {
    let client = WebSocketClient::new("wss://ws7.blitzortung.org/").unwrap();
    let detected = match client.detect_requirements(ProbeOutcome::Response(String::new())) {
        Ok(d) => d,
        Err(_) => panic!("the probe answered"),
    };
    let refused = match detected.clone().connect(HandshakeOutcome::Response(String::from(
        "HTTP/1.1 403 Forbidden\r\n\r\n",
    ))) {
        Ok(_) => panic!("the server refused"),
        Err(c) => c,
    };
    assert!(refused.is_stream_open());
    let failed = match detected.clone().connect(HandshakeOutcome::Failed) {
        Ok(_) => panic!("no stream was opened"),
        Err(c) => c,
    };
    assert!(!failed.is_stream_open());
    assert!(connected_client().is_stream_open());
}

#[test]
fn connected_client_sends_masked_text() {
    let mut client = connected_client();
    let frame = client.send("{\"a\":111}").unwrap();
    assert_eq!(frame[0], 0x81);
    assert_eq!(frame[1], 0x80 | 9);
    let mask = [frame[2], frame[3], frame[4], frame[5]];
    let body: Vec<u8> = frame[6..].iter().enumerate().map(|(i, b)| b ^ mask[i % 4]).collect();
    assert_eq!(body, b"{\"a\":111}".to_vec());
}

#[test]
fn closing_returns_to_disconnected() {
    let client = connected_client();
    let closed = client.close();
    assert_eq!(closed.host(), Some(String::from("ws7.blitzortung.org")));
    assert!(closed.connect().is_err());
}

#[test]
fn read_message_decodes_text_frames() {
    let mut client = connected_client();
    let header = FrameHeader::parse(0x81, 3);
    let payload = [97u8, 98, 0xC4, 0x80];
    assert_eq!(client.read_message(&header, &payload), Ok(String::from("abab")));
}

#[test]
fn read_message_reports_other_frames() {
    let mut client = connected_client();
    let payload = [97u8];
    assert_eq!(
        client.read_message(&FrameHeader::parse(0x01, 1), &payload),
        Err(ReadError::FragmentedFrame)
    );
    assert_eq!(
        client.read_message(&FrameHeader::parse(0x88, 1), &payload),
        Err(ReadError::ConnectionClosed)
    );
    assert_eq!(
        client.read_message(&FrameHeader::parse(0x82, 1), &payload),
        Err(ReadError::UnsupportedOpcode(2))
    );
}

#[test]
fn cookie_headers_take_the_last_cookie() {
    let response = "HTTP/1.1 200 OK\r\nSet-Cookie: a=1; Path=/\r\nX: y\r\nSet-Cookie:   b=2;x\r\n\r\nbody";
    assert_eq!(cookie_headers(response), vec![(String::from("Cookie"), String::from("b=2"))]);
    assert_eq!(cookie_headers("HTTP/1.1 200 OK\r\n\r\n"), vec![]);
    assert_eq!(
        cookie_headers("Set-Cookie:Set-Cookie: c=3 \r\n"),
        vec![(String::from("Cookie"), String::from("c=3"))]
    );
    // The header name has to start its line.
    assert_eq!(cookie_headers("X-Set-Cookie: d=4\r\n"), vec![]);
    assert_eq!(cookie_headers("Set-Cookie: last"), vec![(String::from("Cookie"), String::from("last"))]);
}

#[test]
fn handshake_status_reads_the_answer() {
    assert_eq!(handshake_status("HTTP/1.1 101 Switching Protocols\r\n\r\n"), Ok(()));
    assert_eq!(
        handshake_status("HTTP/1.1 401 Unauthorized\r\n\r\n"),
        Err(HandshakeError::AuthenticationRequired)
    );
    assert_eq!(
        handshake_status("HTTP/1.1 403 Forbidden\r\n\r\n"),
        Err(HandshakeError::AccessForbidden)
    );
    assert_eq!(
        handshake_status("HTTP/1.1 500 Oops\r\nServer: x\r\n\r\n"),
        Err(HandshakeError::Failed(String::from("HTTP/1.1 500 Oops")))
    );
    assert_eq!(handshake_status(""), Err(HandshakeError::Failed(String::from("Unknown error"))));
    // An accepted upgrade wins over a 401 elsewhere in the answer.
    assert_eq!(handshake_status("HTTP/1.1 101 Switching Protocols\r\nX-Id: 401\r\n\r\n"), Ok(()));
}

#[test]
fn response_completes_at_the_blank_line() {
    assert!(!response_complete("HTTP/1.1 101 Switching Protocols\r\n"));
    assert!(response_complete("HTTP/1.1 101 Switching Protocols\r\n\r\n"));
}

#[test]
fn probe_request_names_the_host() {
    assert_eq!(
        probe_request("www.blitzortung.org"),
        "GET / HTTP/1.1\r\nHost: www.blitzortung.org\r\nUser-Agent: Mozilla/5.0 (X11; Linux x86_64) AppleWebKit/537.36\r\nAccept: text/html,application/xhtml+xml,application/xml;q=0.9,*/*;q=0.8\r\nAccept-Language: en-US,en;q=0.5\r\nAccept-Encoding: gzip, deflate\r\nConnection: close\r\n\r\n"
    );
}

#[test]
fn handshake_key_is_sixteen_bytes_in_base64() {
    let key = handshake_key();
    assert_eq!(key.len(), 24);
    let bytes = base64::prelude::BASE64_STANDARD.decode(key.as_bytes()).unwrap();
    assert_eq!(bytes.len(), 16);
    assert!(key.ends_with("=="));
}

#[test]
fn tracker_url_names_the_host() {
    assert_eq!(tracker_url(&LightningTrackerHost::WS7), "wss://WS7.blitzortung.org/");
    assert_eq!(LightningTrackerHost::WS7.name(), "WS7");
}

#[test]
fn web_socket_error_keeps_its_message() {
    let e = WebSocketError::new("Not connected");
    assert_eq!(e.message(), "Not connected");
}
