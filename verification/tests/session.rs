use raa::connection::ConnError;
use raa::connection::Connection;
use raa::messages::encode_devices_list;
use raa::messages::Device;
use raa::messages::MsgStartStreamRMS;
use raa::messages::ProtocolError;
use raa::messages::Serializable;

fn get_rms_request(device: u32, channels: Vec<u32>) -> Vec<u8> {
    let mut m = MsgStartStreamRMS::new();
    m.device = device;
    m.channels = channels;
    m.serialize()
}

#[test]
fn request_starts_streaming() {
    let mut conn = Connection::new(0);
    assert!(!conn.is_streaming());
    let req = get_rms_request(0, vec![0]);
    let actions = conn.on_bytes(&req).unwrap();
    assert_eq!(actions.len(), 1);
    assert_eq!(actions[0].device, 0);
    assert_eq!(actions[0].channels, vec![0u32]);
    // The level node took handle 0, so the first source takes handle 1.
    assert_eq!(actions[0].source_id, 1);
    assert!(conn.is_streaming());
}

#[test]
fn request_split_across_reads() {
    let mut conn = Connection::new(0);
    let req = get_rms_request(2, vec![0, 1]);
    let actions = conn.on_bytes(&req[..9].to_vec()).unwrap();
    assert!(actions.is_empty());
    assert!(!conn.is_streaming());
    let actions = conn.on_bytes(&req[9..].to_vec()).unwrap();
    assert_eq!(actions.len(), 1);
    assert_eq!(actions[0].device, 2);
    assert!(conn.is_streaming());
}

#[test]
fn second_request_retires_the_first_source() {
    let mut conn = Connection::new(0);
    let a1 = conn.on_bytes(&get_rms_request(0, vec![0])).unwrap();
    let a2 = conn.on_bytes(&get_rms_request(1, vec![1])).unwrap();
    // Handles keep increasing: the replacement source gets a fresh one.
    assert!(a2[0].source_id > a1[0].source_id);
}

#[test]
fn unknown_kinds_are_ignored() {
    let mut conn = Connection::new(0);
    let frame: Vec<u8> = vec![8, 0, 0, 0, 99, 0, 0, 0];
    let actions = conn.on_bytes(&frame).unwrap();
    assert!(actions.is_empty());
    assert!(!conn.is_streaming());
}

#[test]
fn malformed_length_drops_the_connection() {
    let mut conn = Connection::new(0);
    let frame: Vec<u8> = vec![3, 0, 0, 0, 0, 0, 0, 0];
    assert_eq!(
        conn.on_bytes(&frame),
        Err(ConnError::Protocol(ProtocolError::BadLength))
    );
}

#[test]
fn truncated_request_drops_the_connection() {
    // A frame claiming to be a streaming request whose payload is shorter
    // than the fixed fields.
    let frame: Vec<u8> = vec![12, 0, 0, 0, 0, 0, 0, 0, 1, 0, 0, 0];
    let mut conn = Connection::new(0);
    assert_eq!(
        conn.on_bytes(&frame),
        Err(ConnError::Protocol(ProtocolError::Truncated))
    );
}

#[test]
fn delivery_feeds_the_level_node() {
    let mut conn = Connection::new(0);
    conn.on_bytes(&get_rms_request(0, vec![0])).unwrap();
    let (requests, running) = conn.deliver(&vec![vec![4, 4, 4]], 44100);
    assert!(requests.is_empty());
    assert!(running);
    // The throttle has not elapsed yet, not even at the exact gap.
    assert_eq!(conn.tick(40), None);
    assert_eq!(conn.tick(50), None);
    // Once the gap is exceeded, the level computed from the delivery goes
    // out.
    assert_eq!(conn.tick(51), Some(4));
    // The gap restarts from the send.
    assert_eq!(conn.tick(95), None);
    assert_eq!(conn.tick(102), Some(4));
}

#[test]
fn errors_are_forwarded_once() {
    let mut conn = Connection::new(0);
    conn.on_bytes(&get_rms_request(0, vec![0])).unwrap();
    assert_eq!(conn.poll_error(), None);
    conn.report_error(b"stream fell over".to_vec());
    assert_eq!(conn.poll_error(), Some(b"stream fell over".to_vec()));
    assert_eq!(conn.poll_error(), None);
}

#[test]
fn close_stops_and_retires_handles() {
    let mut conn = Connection::new(0);
    conn.on_bytes(&get_rms_request(0, vec![0])).unwrap();
    let (_, running) = conn.deliver(&vec![vec![1]], 44100);
    assert!(running);
    conn.close();
    assert!(!conn.is_streaming());
}

#[test]
fn end_to_end_session_respects_the_send_cap() {
    // The whole exchange: the server greets with a device list, the client
    // asks for levels on one channel, and level packets then flow at no
    // more than the configured cap.
    let devices = vec![Device { id: 0, name: b"default input".to_vec(), channels: 2 }];
    let greeting = encode_devices_list(devices).unwrap();
    // The greeting is a device-list frame.
    assert_eq!(greeting[4..8], [4, 0, 0, 0]);

    let mut conn = Connection::new(0);
    let actions = conn.on_bytes(&get_rms_request(0, vec![0])).unwrap();
    assert_eq!(actions.len(), 1);

    // One simulated second: a capture delivery and a poll every 5 ms.
    let mut sent = 0;
    let mut t: u64 = 0;
    while t <= 1000 {
        conn.deliver(&vec![vec![12, 12]], 44100);
        if conn.tick(t).is_some() {
            sent += 1;
        }
        t += 5;
    }
    // More than 50 ms must pass between sends: at most 20 in a second.
    assert!(sent <= 20);
    assert!(sent >= 10);
}
