use lightning_tracker::frame::{create_masked_frame, random_bytes, FrameHeader, ReadError};

#[test]
fn short_text_frame_is_masked() {
    let mask = [1u8, 2, 3, 4];
    let frame = create_masked_frame(0x1, b"Hi", &mask);
    assert_eq!(frame, vec![0x81, 0x82, 1, 2, 3, 4, b'H' ^ 1, b'i' ^ 2]);
}

#[test]
fn medium_frame_has_two_length_bytes() {
    let payload = vec![7u8; 200];
    let mask = [0u8, 0, 0, 0];
    let frame = create_masked_frame(0x1, &payload, &mask);
    assert_eq!(&frame[..4], &[0x81, 0xFE, 0x00, 0xC8]);
    assert_eq!(frame.len(), 4 + 4 + 200);
    let payload = vec![7u8; 65535];
    let frame = create_masked_frame(0x1, &payload, &mask);
    assert_eq!(&frame[..4], &[0x81, 0xFE, 0xFF, 0xFF]);
}

#[test]
fn long_frame_has_eight_length_bytes() {
    let payload = vec![0u8; 70000];
    let mask = [9u8, 8, 7, 6];
    let frame = create_masked_frame(0x2, &payload, &mask);
    assert_eq!(&frame[..10], &[0x82, 0xFF, 0, 0, 0, 0, 0, 0x01, 0x11, 0x70]);
    assert_eq!(&frame[10..14], &mask);
    assert_eq!(frame[14], 9);
    assert_eq!(frame[17], 6);
    assert_eq!(frame.len(), 14 + 70000);
}

#[test]
fn built_frame_reads_back() {
    let mask = [0xA5u8, 0x5A, 0x0F, 0xF0];
    let payload: Vec<u8> = (0..300u32).map(|i| (i % 251) as u8).collect();
    let frame = create_masked_frame(0x1, &payload, &mask);
    let header = FrameHeader::parse(frame[0], frame[1]);
    assert!(header.fin);
    assert!(header.masked);
    assert_eq!(header.opcode, 1);
    let ext = header.extended_length_size();
    assert_eq!(ext, 2);
    assert_eq!(header.payload_length(&frame[2..2 + ext]), Ok(300));
    assert_eq!(&frame[2 + ext..6 + ext], &mask);
    let unmasked: Vec<u8> = frame[6 + ext..].iter().enumerate().map(|(i, b)| b ^ mask[i % 4]).collect();
    assert_eq!(unmasked, payload);
}

#[test]
fn header_parse_reads_the_bits() {
    let h = FrameHeader::parse(0x81, 0x05);
    assert_eq!(h, FrameHeader { fin: true, opcode: 1, masked: false, length_code: 5 });
    assert_eq!(h.extended_length_size(), 0);
    assert_eq!(h.payload_length(&[]), Ok(5));
    let h = FrameHeader::parse(0x08, 0xFE);
    assert_eq!(h, FrameHeader { fin: false, opcode: 8, masked: true, length_code: 126 });
    assert_eq!(h.payload_length(&[0x01, 0x00]), Ok(256));
    let h = FrameHeader::parse(0x82, 0x7F);
    assert_eq!(h.extended_length_size(), 8);
    assert_eq!(h.payload_length(&[0, 0, 0, 0, 0, 1, 0, 0]), Ok(65536));
}

#[test]
fn oversized_length_is_refused_on_narrow_targets() {
    let h = FrameHeader::parse(0x81, 0x7F);
    let ext = [0xFFu8, 0xFF, 0xFF, 0xFF, 0xFF, 0xFF, 0xFF, 0xFF];
    let r = h.payload_length(&ext);
    if usize::BITS < 64 {
        assert_eq!(r, Err(ReadError::PayloadTooLarge));
    } else {
        assert_eq!(r, Ok(usize::MAX));
    }
}

#[test]
fn random_bytes_have_the_requested_length() {
    assert_eq!(random_bytes(4).len(), 4);
    assert_eq!(random_bytes(0).len(), 0);
}
