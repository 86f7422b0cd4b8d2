use raa::messages::encode_devices_list;
use raa::messages::encode_error;
use raa::messages::encode_rms_packet;
use raa::messages::tag;
use raa::messages::Device;
use raa::messages::MsgDevicesList;
use raa::messages::MsgError;
use raa::messages::MsgGetDevices;
use raa::messages::MsgRMSPacket;
use raa::messages::MsgStartStreamRMS;
use raa::messages::MsgType;
use raa::messages::ProtocolError;
use raa::messages::Serializable;

#[test]
fn tags_have_fixed_values() {
    assert_eq!(tag(MsgType::MSG_GET_RMS), 0);
    assert_eq!(tag(MsgType::MSG_RMS_PACKET), 1);
    assert_eq!(tag(MsgType::MSG_GET_DEVICES), 2);
    assert_eq!(tag(MsgType::MSG_SET_FLOAT_PARAM), 3);
    assert_eq!(tag(MsgType::MSG_DEVICES_LIST), 4);
    assert_eq!(tag(MsgType::MSG_DB_PACKET), 5);
    assert_eq!(tag(MsgType::MSG_SET_BOOLEAN_PARAM), 6);
    assert_eq!(tag(MsgType::MSG_CONFIGUREDB), 7);
    assert_eq!(tag(MsgType::MSG_ERROR), 8);
}

#[test]
fn get_devices_has_its_tag() {
    let m = MsgGetDevices::new();
    assert_eq!(tag(m.msg_type), 2);
}

#[test]
fn error_exact_bytes() {
    let mut m = MsgError::new();
    m.message = b"horror".to_vec();
    let bytes = m.serialize();
    let expected: Vec<u8> = vec![
        16, 0, 0, 0, // total length: 8 header + 2 length field + 6 text
        8, 0, 0, 0, // type tag
        6, 0, // message length
        b'h', b'o', b'r', b'r', b'o', b'r',
    ];
    assert_eq!(bytes, expected);
}

#[test]
fn error_round_trip() {
    let mut m = MsgError::new();
    m.message = b"device vanished".to_vec();
    let bytes = m.serialize();
    let back = MsgError::deserialized(bytes[8..].to_vec()).unwrap();
    assert_eq!(back.message, m.message);
    assert_eq!(tag(back.msg_type), 8);
}

#[test]
fn error_round_trip_empty() {
    let m = MsgError::new();
    let bytes = m.serialize();
    assert_eq!(bytes.len(), 10);
    let back = MsgError::deserialized(bytes[8..].to_vec()).unwrap();
    assert!(back.message.is_empty());
}

#[test]
fn error_truncated_is_rejected() {
    assert_eq!(
        MsgError::deserialized(vec![5, 0, b'a']),
        Err(ProtocolError::Truncated)
    );
    assert_eq!(MsgError::deserialized(vec![7]), Err(ProtocolError::Truncated));
}

#[test]
fn rms_packet_exact_bytes() {
    let mut m = MsgRMSPacket::new();
    m.value_bits = 1.0f32.to_bits();
    let bytes = m.serialize();
    let expected: Vec<u8> = vec![12, 0, 0, 0, 1, 0, 0, 0, 0x00, 0x00, 0x80, 0x3f];
    assert_eq!(bytes, expected);
}

#[test]
fn rms_packet_round_trip() {
    let mut m = MsgRMSPacket::new();
    m.value_bits = 0.172f32.to_bits();
    let bytes = m.serialize();
    let back = MsgRMSPacket::deserialized(bytes[8..].to_vec()).unwrap();
    assert_eq!(f32::from_bits(back.value_bits), 0.172f32);
}

#[test]
fn rms_packet_truncated_is_rejected() {
    assert_eq!(
        MsgRMSPacket::deserialized(vec![1, 2, 3]),
        Err(ProtocolError::Truncated)
    );
}

#[test]
fn start_stream_exact_bytes() {
    let mut m = MsgStartStreamRMS::new();
    m.device = 3;
    m.channels = vec![0, 1];
    let bytes = m.serialize();
    let expected: Vec<u8> = vec![
        28, 0, 0, 0, // total length
        0, 0, 0, 0, // type tag: the streaming request
        1, 0, 0, 0, // device-record count placeholder
        3, 0, 0, 0, // device identifier
        2, 0, 0, 0, // channel count
        0, 0, 0, 0, // channel 0
        1, 0, 0, 0, // channel 1
    ];
    assert_eq!(bytes, expected);
}

#[test]
fn start_stream_round_trip() {
    let mut m = MsgStartStreamRMS::new();
    m.device = 7;
    m.channels = vec![4, 2, 9];
    let bytes = m.serialize();
    let back = MsgStartStreamRMS::deserialized(bytes[8..].to_vec()).unwrap();
    assert_eq!(back.device, 7);
    assert_eq!(back.channels, vec![4, 2, 9]);
}

#[test]
fn start_stream_round_trip_no_channels() {
    let m = MsgStartStreamRMS::new();
    let bytes = m.serialize();
    assert_eq!(bytes.len(), 20);
    let back = MsgStartStreamRMS::deserialized(bytes[8..].to_vec()).unwrap();
    assert_eq!(back.device, 0);
    assert!(back.channels.is_empty());
}

#[test]
fn start_stream_truncated_is_rejected() {
    // Declares two channels but carries only one.
    let payload: Vec<u8> = vec![
        1, 0, 0, 0, 3, 0, 0, 0, 2, 0, 0, 0, 0, 0, 0, 0,
    ];
    assert!(matches!(
        MsgStartStreamRMS::deserialized(payload),
        Err(ProtocolError::Truncated)
    ));
    assert!(matches!(
        MsgStartStreamRMS::deserialized(vec![1, 0, 0]),
        Err(ProtocolError::Truncated)
    ));
}

#[test]
fn devices_list_exact_bytes() {
    let mut m = MsgDevicesList::new();
    m.devices = vec![Device { id: 0, name: b"mic".to_vec(), channels: 2 }];
    let bytes = m.serialize();
    let expected: Vec<u8> = vec![
        25, 0, 0, 0, // total length: 12 + one 13-byte record
        4, 0, 0, 0, // type tag
        1, 0, 0, 0, // device count
        0, 0, 0, 0, // device id
        3, 0, // name length
        b'm', b'i', b'c', // name
        2, 0, 0, 0, // channel count
    ];
    assert_eq!(bytes, expected);
}

#[test]
fn devices_list_round_trip() {
    let mut m = MsgDevicesList::new();
    m.devices = vec![
        Device { id: 0, name: b"built-in mic".to_vec(), channels: 2 },
        Device { id: 5, name: b"line in".to_vec(), channels: 8 },
    ];
    let bytes = m.serialize();
    let back = MsgDevicesList::deserialized(bytes[8..].to_vec()).unwrap();
    assert_eq!(back.devices, m.devices);
}

#[test]
fn devices_list_round_trip_empty() {
    let m = MsgDevicesList::new();
    let bytes = m.serialize();
    assert_eq!(bytes.len(), 12);
    let back = MsgDevicesList::deserialized(bytes[8..].to_vec()).unwrap();
    assert!(back.devices.is_empty());
}

#[test]
fn devices_list_truncated_is_rejected() {
    // Declares one device but the record is cut short.
    let payload: Vec<u8> = vec![1, 0, 0, 0, 0, 0, 0, 0, 9, 0, b'x'];
    assert!(matches!(
        MsgDevicesList::deserialized(payload),
        Err(ProtocolError::Truncated)
    ));
    assert!(matches!(
        MsgDevicesList::deserialized(vec![1, 0]),
        Err(ProtocolError::Truncated)
    ));
}

#[test]
fn encode_error_clips_long_messages() {
    let long = vec![b'x'; 70000];
    let bytes = encode_error(long);
    // total length field: 10 + clipped text
    let total = u32::from_le_bytes([bytes[0], bytes[1], bytes[2], bytes[3]]);
    assert_eq!(total, 10 + 0xffff);
    assert_eq!(bytes.len() as u32, total);
    let short = encode_error(b"ok".to_vec());
    assert_eq!(short.len(), 12);
}

#[test]
fn encode_rms_packet_exact_bytes() {
    let bytes = encode_rms_packet(0.5f32.to_bits());
    assert_eq!(bytes, vec![12, 0, 0, 0, 1, 0, 0, 0, 0x00, 0x00, 0x00, 0x3f]);
}

#[test]
fn encode_devices_list_checks_name_length() {
    let bad = vec![Device { id: 1, name: vec![b'n'; 70000], channels: 1 }];
    assert!(encode_devices_list(bad).is_none());
    let good = vec![Device { id: 1, name: b"mic".to_vec(), channels: 1 }];
    let bytes = encode_devices_list(good).unwrap();
    assert_eq!(bytes.len(), 25);
}
