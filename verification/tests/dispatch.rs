use orion_utils::codec::{Codec, Reminder};
use orion_utils::dispatch::{
    frame_request, read_response, DispatchError, DispatchMessage, DispatchResponse, Dispatches, PacketBuffer,
    RequestError, RequestId,
};

#[test]
fn request_ids_encode_as_numbers() {
    assert_eq!(RequestId(300).to_bytes(), vec![0xac, 0x02]);
    assert_eq!(RequestId::whatever(), RequestId(usize::MAX));
    let mut slice: &[u8] = &[5];
    assert_eq!(RequestId::decode(&mut slice), Some(RequestId(5)));
}

#[test]
fn responses_carry_their_request() {
    let r = DispatchResponse { request_id: RequestId(2), response: 300u64 };
    let bytes = r.to_bytes();
    assert_eq!(bytes, vec![2, 0xac, 0x02]);
    let mut slice: &[u8] = &bytes;
    let back = DispatchResponse::<u64>::decode(&mut slice).unwrap();
    assert_eq!(back.request_id, RequestId(2));
    assert_eq!(back.response, 300);
    let mut cut: &[u8] = &[2];
    assert!(DispatchResponse::<u64>::decode(&mut cut).is_none());
}

#[test]
fn messages_hold_prefix_id_and_payload() {
    let m = DispatchMessage { prefix: 1, request_id: RequestId(4), payload: Reminder(&[9, 9]) };
    let bytes = m.to_bytes();
    assert_eq!(bytes, vec![1, 4, 9, 9]);
    let mut slice: &[u8] = &bytes;
    let back = DispatchMessage::decode(&mut slice).unwrap();
    assert_eq!(back.prefix, 1);
    assert_eq!(back.request_id, RequestId(4));
    assert_eq!(back.payload.0, &[9, 9]);
}

#[test]
fn packet_buffer_marks_each_packet_with_its_offset() {
    let mut buffer: PacketBuffer<u8> = PacketBuffer::new();
    buffer.push(&7u8, 1);
    buffer.push(&8u8, 2);
    buffer.push(&9u8, 3);
    // each mark takes the bytes up to its offset, counted from where the previous stopped
    let drained = buffer.drain();
    assert_eq!(drained, vec![(1, vec![]), (2, vec![7]), (3, vec![8, 9])]);
    assert_eq!(buffer.drain(), vec![]);
}

#[test]
fn errors_compare() {
    assert_eq!(DispatchError::InvalidPrefix(3), DispatchError::InvalidPrefix(3));
    assert_ne!(DispatchError::InvalidPrefix(3), DispatchError::InvalidRequest);
    assert_ne!(RequestError::InvalidResponse, RequestError::ChannelClosed);
}

struct Router;

impl Dispatches<u8> for Router {
    const PREFIX: u8 = 3;
}

#[test]
fn requests_are_framed_behind_prefix_and_id() {
    let mut buffer = vec![9, 9, 9];
    frame_request::<u8, Router, _>(&mut buffer, RequestId(300), &5u32);
    assert_eq!(buffer, vec![3, 0xac, 0x02, 5]);
}

#[test]
fn responses_that_do_not_decode_are_refused() {
    assert_eq!(read_response::<u32>(&[0x81, 0x01, 7]), Ok(129));
    assert_eq!(read_response::<u32>(&[0x81]), Err(RequestError::InvalidResponse));
    assert_eq!(read_response::<u32>(&[]), Err(RequestError::InvalidResponse));
}
