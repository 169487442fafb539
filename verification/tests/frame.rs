use websocket::frame::LONGEST_ENCODED_LENGTH;
use websocket::{
    binary_message_frame, create_frame, create_frames_from_buffer, encode_frame, get_frame_type,
    parse_messages, string_message_frame, try_parse_messages, Frame, Frametype,
};

/// A client frame: first byte, mask bit with the length field, key, masked payload.
fn client_frame(first: u8, mask: [u8; 4], payload: &[u8]) -> Vec<u8> {
    let mut out = vec![first];
    let len = payload.len();
    if len <= 125 {
        out.push(0x80 | len as u8);
    } else if len <= 65535 {
        out.push(0xfe);
        out.extend_from_slice(&(len as u16).to_be_bytes());
    } else {
        out.push(0xff);
        out.extend_from_slice(&(len as u64).to_be_bytes());
    }
    out.extend_from_slice(&mask);
    for (k, b) in payload.iter().enumerate() {
        out.push(b ^ mask[k % 4]);
    }
    out
}

fn assert_frame(
    frame: &Frame,
    flags: (bool, bool, bool, bool),
    frame_type: Frametype,
    len: u64,
    mask: [u8; 4],
    data: &[u8],
) {
    assert_eq!((frame.fin, frame.rsv1, frame.rsv2, frame.rsv3), flags);
    assert_eq!(frame.frame_type, frame_type);
    assert_eq!(frame.message_length, len);
    assert_eq!(frame.mask, mask);
    assert_eq!(frame.data, data);
}

#[test]
fn frame_type_of_each_opcode() {
    assert_eq!(get_frame_type(0x80), Frametype::Continuation);
    assert_eq!(get_frame_type(0x81), Frametype::Text);
    assert_eq!(get_frame_type(0x82), Frametype::Binary);
    assert_eq!(get_frame_type(0x88), Frametype::Close);
    assert_eq!(get_frame_type(0x89), Frametype::Ping);
    assert_eq!(get_frame_type(0x8a), Frametype::Pong);
    for reserved in [3u8, 4, 5, 6, 7, 11, 12, 13, 14, 15] {
        assert_eq!(get_frame_type(0x80 | reserved), Frametype::Reserved);
    }
}

#[test]
fn frame_type_ignores_high_bits() {
    assert_eq!(get_frame_type(0x01), Frametype::Text);
    assert_eq!(get_frame_type(0xf1), Frametype::Text);
    assert_eq!(get_frame_type(0x7a), Frametype::Pong);
}

#[test]
fn create_frame_keeps_its_parts() {
    let frame = create_frame(false, true, false, true, Frametype::Ping, 3, [1, 2, 3, 4], vec![9, 8, 7]);
    assert_frame(&frame, (false, true, false, true), Frametype::Ping, 3, [1, 2, 3, 4], &[9, 8, 7]);
}

#[test]
fn decodes_masked_hello_from_the_protocol_text() {
    let buffer = [0x81, 0x85, 0x37, 0xfa, 0x21, 0x3d, 0x7f, 0x9f, 0x4d, 0x51, 0x58];
    let frame = create_frames_from_buffer(&buffer);
    assert_frame(&frame, (true, false, false, false), Frametype::Text, 5, [0x37, 0xfa, 0x21, 0x3d], b"Hello");
}

#[test]
fn decodes_flags_of_the_first_byte() {
    let buffer = client_frame(0x72, [0, 0, 0, 0], b"ab");
    let frame = create_frames_from_buffer(&buffer);
    assert_frame(&frame, (false, true, true, true), Frametype::Binary, 2, [0, 0, 0, 0], b"ab");
}

#[test]
fn decodes_sixteen_bit_length() {
    let payload: Vec<u8> = (0..300u32).map(|k| (k * 7) as u8).collect();
    let buffer = client_frame(0x82, [0xa1, 0xb2, 0xc3, 0xd4], &payload);
    assert_eq!(&buffer[1..4], &[0xfe, 0x01, 0x2c]);
    let frame = create_frames_from_buffer(&buffer);
    assert_frame(&frame, (true, false, false, false), Frametype::Binary, 300, [0xa1, 0xb2, 0xc3, 0xd4], &payload);
}

#[test]
fn decodes_sixty_four_bit_length() {
    let payload: Vec<u8> = (0..70000u32).map(|k| (k % 251) as u8).collect();
    let buffer = client_frame(0x82, [5, 6, 7, 8], &payload);
    assert_eq!(&buffer[1..10], &[0xff, 0, 0, 0, 0, 0, 1, 0x11, 0x70]);
    let frame = create_frames_from_buffer(&buffer);
    assert_frame(&frame, (true, false, false, false), Frametype::Binary, 70000, [5, 6, 7, 8], &payload);
}

#[test]
fn decodes_unmasked_length_byte_alike() {
    // The reader does not look at the mask bit: a length byte without it reads the same.
    let buffer = [0x81, 0x02, 1, 2, 3, 4, b'a' ^ 1, b'b' ^ 2];
    let frame = create_frames_from_buffer(&buffer);
    assert_frame(&frame, (true, false, false, false), Frametype::Text, 2, [1, 2, 3, 4], b"ab");
}

#[test]
fn parses_consecutive_messages() {
    let mut buffer = client_frame(0x81, [1, 2, 3, 4], b"Hello");
    buffer.extend(client_frame(0x82, [9, 9, 9, 9], &[0, 1, 2]));
    buffer.extend(client_frame(0x89, [0, 0, 0, 1], b""));
    let read = buffer.len();
    buffer.resize(64, 0);
    let frames = parse_messages(&buffer, read);
    assert_eq!(frames.len(), 3);
    assert_frame(&frames[0], (true, false, false, false), Frametype::Text, 5, [1, 2, 3, 4], b"Hello");
    assert_frame(&frames[1], (true, false, false, false), Frametype::Binary, 3, [9, 9, 9, 9], &[0, 1, 2]);
    assert_frame(&frames[2], (true, false, false, false), Frametype::Ping, 0, [0, 0, 0, 1], b"");
}

#[test]
fn parsing_stops_at_a_first_byte_without_fin() {
    let mut buffer = client_frame(0x81, [1, 2, 3, 4], b"one");
    buffer.extend(client_frame(0x01, [1, 2, 3, 4], b"two"));
    buffer.extend(client_frame(0x81, [1, 2, 3, 4], b"three"));
    let frames = parse_messages(&buffer, buffer.len());
    assert_eq!(frames.len(), 1);
    assert_eq!(frames[0].data, b"one");
}

#[test]
fn parsing_stops_at_a_reserved_bit() {
    let buffer = client_frame(0xc1, [1, 2, 3, 4], b"one");
    assert_eq!(parse_messages(&buffer, buffer.len()).len(), 0);
}

#[test]
fn parsing_nothing_read_gives_nothing() {
    let buffer = [0x81u8, 0x80, 0, 0, 0, 0];
    assert_eq!(parse_messages(&buffer, 0).len(), 0);
}

#[test]
fn parsing_reads_only_up_to_bytes_read() {
    let mut buffer = client_frame(0x81, [1, 2, 3, 4], b"one");
    let read = buffer.len();
    buffer.extend(client_frame(0x81, [1, 2, 3, 4], b"two"));
    let frames = parse_messages(&buffer, read);
    assert_eq!(frames.len(), 1);
}

#[test]
fn parsing_marks_every_frame_final() {
    // Only the high nibble 0x8 passes; the frame is recorded final with no reserved bit.
    let buffer = client_frame(0x88, [0, 0, 0, 0], &[3, 232]);
    let frames = parse_messages(&buffer, buffer.len());
    assert_frame(&frames[0], (true, false, false, false), Frametype::Close, 2, [0, 0, 0, 0], &[3, 232]);
}

#[test]
fn parsing_a_masked_extended_length_reads_no_length_bytes() {
    // With the mask bit set the byte is 0xfe, not 126: the length counts as zero
    // and the key is read from where the length bytes stand.
    let buffer = [0x81u8, 0xfe, 0x00, 0x7e, 0x11, 0x22, 0x33];
    let frames = parse_messages(&buffer, 7);
    assert_eq!(frames.len(), 1);
    assert_frame(&frames[0], (true, false, false, false), Frametype::Text, 0, [0xfe, 0x00, 0x7e, 0x11], b"");
}

#[test]
fn parsing_an_unmasked_extended_length() {
    let payload = [7u8; 130];
    let mut buffer = vec![0x82u8, 126, 0, 130, 0, 0, 0, 0];
    buffer.extend_from_slice(&payload);
    let frames = parse_messages(&buffer, buffer.len());
    assert_frame(&frames[0], (true, false, false, false), Frametype::Binary, 130, [0, 0, 0, 0], &payload);
}

#[test]
fn parsing_a_truncated_frame_is_refused() {
    let buffer = client_frame(0x81, [1, 2, 3, 4], b"Hello");
    assert!(try_parse_messages(&buffer[..8], 8).is_none());
    assert!(try_parse_messages(&buffer[..1], 1).is_none());
    assert!(try_parse_messages(&buffer[..4], 4).is_none());
    let frames = try_parse_messages(&buffer, buffer.len()).unwrap();
    assert_eq!(frames[0].data, b"Hello");
}

#[test]
fn encodes_short_text_frame() {
    let frame = string_message_frame("Hi");
    assert_eq!(encode_frame(&frame), vec![0x81, 0x02, b'H', b'i']);
}

#[test]
fn encodes_sixteen_bit_length() {
    let payload = vec![1u8; 200];
    let bytes = encode_frame(&binary_message_frame(&payload));
    assert_eq!(&bytes[..4], &[0x82, 126, 0x00, 0xc8]);
    assert_eq!(&bytes[4..], &payload[..]);
}

#[test]
fn encodes_boundary_lengths() {
    assert_eq!(&encode_frame(&binary_message_frame(&[0u8; 125]))[..2], &[0x82, 125]);
    assert_eq!(&encode_frame(&binary_message_frame(&[0u8; 126]))[..4], &[0x82, 126, 0, 126]);
    assert_eq!(&encode_frame(&binary_message_frame(&[0u8; 65535]))[..4], &[0x82, 126, 0xff, 0xff]);
    assert_eq!(
        &encode_frame(&binary_message_frame(&[0u8; 65536]))[..10],
        &[0x82, 127, 0, 0, 0, 0, 0, 1, 0, 0]
    );
}

#[test]
fn encodes_sixty_four_bit_length() {
    let payload = vec![2u8; 70000];
    let bytes = encode_frame(&binary_message_frame(&payload));
    assert_eq!(&bytes[..10], &[0x82, 127, 0, 0, 0, 0, 0, 1, 0x11, 0x70]);
    assert_eq!(bytes.len(), 10 + 70000);
}

#[test]
fn encodes_type_by_its_position() {
    let types = [
        Frametype::Continuation,
        Frametype::Text,
        Frametype::Binary,
        Frametype::Close,
        Frametype::Ping,
        Frametype::Pong,
        Frametype::Reserved,
        Frametype::Unknown,
    ];
    for (code, t) in types.into_iter().enumerate() {
        let frame = create_frame(true, false, false, false, t, 0, [0; 4], Vec::new());
        assert_eq!(encode_frame(&frame), vec![0x80 | code as u8, 0]);
    }
}

#[test]
fn encodes_the_announced_length_not_the_payload_length() {
    let frame = create_frame(true, false, false, false, Frametype::Text, 3, [9; 4], vec![1]);
    assert_eq!(encode_frame(&frame), vec![0x81, 3, 1]);
}

#[test]
fn encodes_no_length_field_beyond_the_longest() {
    let frame = create_frame(true, false, false, false, Frametype::Binary, LONGEST_ENCODED_LENGTH + 1, [0; 4], vec![5]);
    assert_eq!(encode_frame(&frame), vec![0x82, 5]);
    let frame = create_frame(true, false, false, false, Frametype::Binary, LONGEST_ENCODED_LENGTH, [0; 4], vec![]);
    let mut expected = vec![0x82, 127];
    expected.extend_from_slice(&LONGEST_ENCODED_LENGTH.to_be_bytes());
    assert_eq!(encode_frame(&frame), expected);
}

#[test]
fn text_message_frame_holds_utf8_bytes() {
    let frame = string_message_frame("héllo");
    assert_frame(&frame, (true, false, false, false), Frametype::Text, 6, [0, 0, 0, 0], "héllo".as_bytes());
}

#[test]
fn binary_message_frame_holds_bytes() {
    let frame = binary_message_frame(&[0, 255, 7]);
    assert_frame(&frame, (true, false, false, false), Frametype::Binary, 3, [0, 0, 0, 0], &[0, 255, 7]);
}

#[test]
fn client_frames_round_trip_through_the_decoder() {
    for len in [0usize, 1, 125, 126, 65535, 65536] {
        let payload: Vec<u8> = (0..len).map(|k| (k * 13 + 5) as u8).collect();
        let buffer = client_frame(0x81, [0x12, 0x34, 0x56, 0x78], &payload);
        let frame = create_frames_from_buffer(&buffer);
        assert_frame(&frame, (true, false, false, false), Frametype::Text, len as u64, [0x12, 0x34, 0x56, 0x78], &payload);
    }
}

#[test]
fn encoded_header_reads_back_after_a_key() {
    // An encoded frame with a key put after its header decodes to the same length and payload.
    for len in [3usize, 300, 70000] {
        let payload: Vec<u8> = (0..len).map(|k| k as u8).collect();
        let bytes = encode_frame(&binary_message_frame(&payload));
        let header = bytes.len() - len;
        let mut keyed = bytes[..header].to_vec();
        keyed.extend_from_slice(&[0, 0, 0, 0]);
        keyed.extend_from_slice(&bytes[header..]);
        let frame = create_frames_from_buffer(&keyed);
        assert_frame(&frame, (true, false, false, false), Frametype::Binary, len as u64, [0; 4], &payload);
    }
}
