use mycochip::avr_net::{
    join_be16, split_be16, AvrNetMessage, AvrNetMode, AvrNetState, FormatError, BUFFER_CAPACITY,
    MAX_WIRE_PAYLOAD,
};

fn feed(decoder: &mut AvrNetState, bytes: &[u8]) -> Vec<AvrNetMessage> {
    let mut out = Vec::new();
    for b in bytes {
        if let Some(m) = decoder.rx(*b) {
            out.push(m);
        }
    }
    out
}

#[test]
fn message_from_vec() {
    let data = vec![0, 1, 0, 2, 4, 2];
    let message = AvrNetMessage::try_from(data).unwrap();

    assert_eq!(message.address, 1);
    assert_eq!(message.data, vec![4, 2]);
}

#[test]
fn message_to_vec() {
    let message = AvrNetMessage {
        address: 1,
        data: vec![4, 2],
    };

    let data: Vec<u8> = message.try_into().unwrap();
    assert_eq!(data, vec![0, 1, 0, 2, 4, 2]);
}

#[test]
fn big_endian_bytes() {
    assert_eq!(split_be16(0x1234), (0x12, 0x34));
    assert_eq!(split_be16(0), (0, 0));
    assert_eq!(split_be16(0xffff), (0xff, 0xff));
    assert_eq!(join_be16(0x12, 0x34), 0x1234);
    assert_eq!(join_be16(0xff, 0xff), 0xffff);
    assert_eq!(join_be16(1, 0), 256);
}

#[test]
fn encode_writes_header_then_payload() {
    let message = AvrNetMessage { address: 0xabcd, data: vec![9; 300] };
    let bytes = message.encode().unwrap();
    assert_eq!(bytes.len(), 304);
    assert_eq!(&bytes[..4], &[0xab, 0xcd, 0x01, 0x2c]);
    assert!(bytes[4..].iter().all(|b| *b == 9));
}

#[test]
fn encode_takes_the_largest_payload_and_no_more() {
    let largest = AvrNetMessage { address: 7, data: vec![1; MAX_WIRE_PAYLOAD] };
    let bytes = largest.encode().unwrap();
    assert_eq!(bytes.len(), MAX_WIRE_PAYLOAD + 4);
    assert_eq!(&bytes[..4], &[0, 7, 0xff, 0xff]);

    let too_large = AvrNetMessage { address: 7, data: vec![1; MAX_WIRE_PAYLOAD + 1] };
    assert_eq!(too_large.encode().unwrap_err(), FormatError::PayloadTooLarge);
    let converted: Result<Vec<u8>, FormatError> = too_large.try_into();
    assert_eq!(converted.unwrap_err(), FormatError::PayloadTooLarge);
}

#[test]
fn decode_undoes_encode() {
    for len in [0usize, 1, 2, 255, 256] {
        let data: Vec<u8> = (0..len).map(|i| (i % 251) as u8).collect();
        let message = AvrNetMessage { address: 0x0102, data: data.clone() };
        let bytes = message.encode().unwrap();
        let back = AvrNetMessage::decode(&bytes).unwrap();
        assert_eq!(back.address, 0x0102);
        assert_eq!(back.data, data);
    }
}

#[test]
fn decode_refuses_a_short_header() {
    assert_eq!(AvrNetMessage::decode(&vec![]).unwrap_err(), FormatError::LengthMismatch);
    assert_eq!(AvrNetMessage::decode(&vec![0, 1, 0]).unwrap_err(), FormatError::LengthMismatch);
}

#[test]
fn decode_refuses_a_length_that_does_not_match() {
    assert_eq!(
        AvrNetMessage::decode(&vec![0, 1, 0, 2, 4]).unwrap_err(),
        FormatError::LengthMismatch
    );
    assert_eq!(
        AvrNetMessage::decode(&vec![0, 1, 0, 2, 4, 2, 9]).unwrap_err(),
        FormatError::LengthMismatch
    );
    assert_eq!(
        AvrNetMessage::try_from(vec![0, 1, 0, 0, 4]).unwrap_err(),
        FormatError::LengthMismatch
    );
}

#[test]
fn decode_refuses_what_does_not_fit_the_buffer() {
    let message = AvrNetMessage { address: 1, data: vec![0; BUFFER_CAPACITY + 1] };
    let bytes = message.encode().unwrap();
    assert_eq!(AvrNetMessage::decode(&bytes).unwrap_err(), FormatError::PayloadTooLarge);
    assert_eq!(
        AvrNetMessage::decode(&vec![0, 1, 1, 1]).unwrap_err(),
        FormatError::PayloadTooLarge
    );
}

#[test]
fn decode_takes_an_empty_payload() {
    let message = AvrNetMessage::decode(&vec![0x12, 0x34, 0, 0]).unwrap();
    assert_eq!(message.address, 0x1234);
    assert!(message.data.is_empty());
}

#[test]
fn decoder_walks_through_a_frame() {
    let mut decoder = AvrNetState::new(1);
    assert_eq!(decoder.my_address(), 1);
    assert_eq!(decoder.mode(), AvrNetMode::AddressMsb);
    assert!(decoder.rx(0).is_none());
    assert_eq!(decoder.mode(), AvrNetMode::AddressLsb);
    assert!(decoder.rx(1).is_none());
    assert_eq!(decoder.mode(), AvrNetMode::LengthMsb);
    assert!(decoder.rx(0).is_none());
    assert_eq!(decoder.mode(), AvrNetMode::LengthLsb);
    assert!(decoder.rx(2).is_none());
    assert_eq!(decoder.mode(), AvrNetMode::Data);
    assert!(decoder.rx(b'h').is_none());
    assert_eq!(decoder.mode(), AvrNetMode::Data);
    let message = decoder.rx(b'i').unwrap();
    assert_eq!(message.address, 1);
    assert_eq!(message.data, b"hi".to_vec());
    assert_eq!(decoder.mode(), AvrNetMode::AddressMsb);
}

#[test]
fn decoder_surfaces_only_its_own_frames() {
    let first = AvrNetMessage { address: 1, data: vec![10, 11, 12] }.encode().unwrap();
    let second = AvrNetMessage { address: 2, data: vec![20, 21] }.encode().unwrap();
    let mut stream = first.clone();
    stream.extend_from_slice(&second);
    stream.extend_from_slice(&first);

    let mut one = AvrNetState::new(1);
    let mut two = AvrNetState::new(2);
    let seen_by_one = feed(&mut one, &stream);
    let seen_by_two = feed(&mut two, &stream);

    assert_eq!(seen_by_one.len(), 2);
    assert_eq!(seen_by_one[0].address, 1);
    assert_eq!(seen_by_one[0].data, vec![10, 11, 12]);
    assert_eq!(seen_by_one[1].data, vec![10, 11, 12]);
    assert_eq!(seen_by_two.len(), 1);
    assert_eq!(seen_by_two[0].address, 2);
    assert_eq!(seen_by_two[0].data, vec![20, 21]);
    assert_eq!(one.mode(), AvrNetMode::AddressMsb);
    assert_eq!(two.mode(), AvrNetMode::AddressMsb);
}

#[test]
fn decoder_stays_in_step_after_a_frame_for_another_address() {
    let mut decoder = AvrNetState::new(5);
    let other = AvrNetMessage { address: 6, data: vec![1, 2, 3, 4] }.encode().unwrap();
    assert!(feed(&mut decoder, &other).is_empty());
    assert_eq!(decoder.mode(), AvrNetMode::AddressMsb);
    let own = AvrNetMessage { address: 5, data: vec![7] }.encode().unwrap();
    let seen = feed(&mut decoder, &own);
    assert_eq!(seen.len(), 1);
    assert_eq!(seen[0].data, vec![7]);
}

#[test]
fn decoder_surfaces_an_empty_frame_at_the_last_header_byte() {
    let mut decoder = AvrNetState::new(3);
    assert!(decoder.rx(0).is_none());
    assert!(decoder.rx(3).is_none());
    assert!(decoder.rx(0).is_none());
    let message = decoder.rx(0).unwrap();
    assert_eq!(message.address, 3);
    assert!(message.data.is_empty());
    assert_eq!(decoder.mode(), AvrNetMode::AddressMsb);
}

#[test]
fn decoder_takes_a_full_buffer() {
    let mut decoder = AvrNetState::new(1);
    let payload: Vec<u8> = (0..BUFFER_CAPACITY).map(|i| i as u8).collect();
    let bytes = AvrNetMessage { address: 1, data: payload.clone() }.encode().unwrap();
    let seen = feed(&mut decoder, &bytes);
    assert_eq!(seen.len(), 1);
    assert_eq!(seen[0].data, payload);
}

#[test]
fn decoder_drops_a_header_that_announces_too_much() {
    let mut decoder = AvrNetState::new(1);
    assert!(feed(&mut decoder, &[0, 1, 1, 1]).is_empty());
    assert_eq!(decoder.mode(), AvrNetMode::AddressMsb);
    let seen = feed(&mut decoder, &[0, 1, 0, 1, 42]);
    assert_eq!(seen.len(), 1);
    assert_eq!(seen[0].data, vec![42]);
}

#[test]
fn decoder_reset_goes_back_to_the_start_of_a_frame() {
    let mut decoder = AvrNetState::new(1);
    feed(&mut decoder, &[0, 1, 0, 3, 9]);
    assert_eq!(decoder.mode(), AvrNetMode::Data);
    decoder.reset();
    assert_eq!(decoder.mode(), AvrNetMode::AddressMsb);
    assert_eq!(decoder.my_address(), 1);
    let seen = feed(&mut decoder, &[0, 1, 0, 1, 8]);
    assert_eq!(seen.len(), 1);
    assert_eq!(seen[0].data, vec![8]);
}
