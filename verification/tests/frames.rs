use raa::frame::FrameBuffer;
use raa::messages::MsgError;
use raa::messages::MsgStartStreamRMS;
use raa::messages::ProtocolError;
use raa::messages::Serializable;

fn encoded_request(device: u32, channels: Vec<u32>) -> Vec<u8> {
    let mut m = MsgStartStreamRMS::new();
    m.device = device;
    m.channels = channels;
    m.serialize()
}

#[test]
fn single_message_split_across_many_chunks() {
    // One encoded message, fed byte by byte: exactly one frame comes out,
    // equal to the whole message, whatever the split points.
    let msg = encoded_request(3, vec![0, 1]);
    let mut buf = FrameBuffer::new();
    for (i, b) in msg.iter().enumerate() {
        buf.push_bytes(&vec![*b]);
        if i + 1 < msg.len() {
            assert_eq!(buf.pop_frame(), Ok(None));
        }
    }
    assert_eq!(buf.pop_frame(), Ok(Some(msg.clone())));
    assert_eq!(buf.pop_frame(), Ok(None));
}

#[test]
fn single_message_split_in_uneven_chunks() {
    let msg = encoded_request(1, vec![5, 6, 7]);
    let mut buf = FrameBuffer::new();
    buf.push_bytes(&msg[..3].to_vec());
    assert_eq!(buf.pop_frame(), Ok(None));
    buf.push_bytes(&msg[3..10].to_vec());
    assert_eq!(buf.pop_frame(), Ok(None));
    buf.push_bytes(&msg[10..].to_vec());
    assert_eq!(buf.pop_frame(), Ok(Some(msg.clone())));
    assert_eq!(buf.pop_frame(), Ok(None));
}

#[test]
fn concatenated_messages_in_one_chunk() {
    // Three complete messages in a single chunk: exactly three frames, in
    // the original order.
    let m1 = encoded_request(0, vec![0]);
    let m2 = {
        let mut e = MsgError::new();
        e.message = b"late".to_vec();
        e.serialize()
    };
    let m3 = encoded_request(2, vec![1, 3]);
    let mut all = Vec::new();
    all.extend_from_slice(&m1);
    all.extend_from_slice(&m2);
    all.extend_from_slice(&m3);
    let mut buf = FrameBuffer::new();
    buf.push_bytes(&all);
    assert_eq!(buf.pop_frame(), Ok(Some(m1)));
    assert_eq!(buf.pop_frame(), Ok(Some(m2)));
    assert_eq!(buf.pop_frame(), Ok(Some(m3)));
    assert_eq!(buf.pop_frame(), Ok(None));
}

#[test]
fn message_and_a_half() {
    // A read may carry one complete frame plus the start of the next.
    let m1 = encoded_request(0, vec![0]);
    let m2 = encoded_request(9, vec![2]);
    let mut chunk = m1.clone();
    chunk.extend_from_slice(&m2[..5]);
    let mut buf = FrameBuffer::new();
    buf.push_bytes(&chunk);
    assert_eq!(buf.pop_frame(), Ok(Some(m1)));
    assert_eq!(buf.pop_frame(), Ok(None));
    buf.push_bytes(&m2[5..].to_vec());
    assert_eq!(buf.pop_frame(), Ok(Some(m2)));
}

#[test]
fn declared_length_below_header_is_malformed() {
    let mut buf = FrameBuffer::new();
    buf.push_bytes(&vec![7, 0, 0, 0, 0, 0, 0, 0]);
    assert_eq!(buf.pop_frame(), Err(ProtocolError::BadLength));
}

#[test]
fn zero_length_frame_is_malformed() {
    // A zero declared length can never complete, and waiting on it would
    // stall the stream forever; it is rejected outright.
    let mut buf = FrameBuffer::new();
    buf.push_bytes(&vec![0, 0, 0, 0, 9, 9]);
    assert_eq!(buf.pop_frame(), Err(ProtocolError::BadLength));
}

#[test]
fn short_prefix_is_not_a_frame() {
    let mut buf = FrameBuffer::new();
    buf.push_bytes(&vec![16, 0, 0]);
    assert_eq!(buf.pop_frame(), Ok(None));
}
