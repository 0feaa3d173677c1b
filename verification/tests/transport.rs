use agent_transport::agent::{Agent, EchoAgent, Session};
use agent_transport::codec::MessageCodec;
use agent_transport::error::AgentError;
use agent_transport::frame::{be32_decode, be32_encode};

use bytes::BytesMut;

/// A handler that refuses every request.
struct RefusingAgent;

impl Agent for RefusingAgent {
    fn handle(&self, _request: Vec<u8>) -> Result<Vec<u8>, AgentError> {
        Err(AgentError::User)
    }
}

fn frame(payload: &[u8]) -> Vec<u8> {
    let mut f = be32_encode(payload.len() as u32);
    f.extend_from_slice(payload);
    f
}

#[test]
fn be32_round_trip_exact() {
    assert_eq!(be32_encode(258), vec![0, 0, 1, 2]);
    assert_eq!(be32_encode(100000), vec![0x00, 0x01, 0x86, 0xA0]);
    assert_eq!(be32_decode(0x00, 0x01, 0x86, 0xA0), 100000);
    assert_eq!(be32_decode(0xFF, 0xFF, 0xFF, 0xFF), u32::MAX);
}

#[test]
fn encode_prepends_length_prefix() {
    let mut codec = MessageCodec;
    let mut dst = BytesMut::new();
    codec.encode(&vec![1, 2, 3], &mut dst).unwrap();
    assert_eq!(&dst[..], &[0, 0, 0, 3, 1, 2, 3]);
}

#[test]
fn codec_round_trip() {
    let mut codec = MessageCodec;
    let mut buf = BytesMut::new();
    codec.encode(&vec![7, 8, 9], &mut buf).unwrap();
    let payload = codec.decode(&mut buf).expect("one whole frame is buffered");
    assert_eq!(payload, vec![7, 8, 9]);
    assert_eq!(buf.len(), 0);
}

#[test]
fn decode_empty_payload_frame() {
    let mut codec = MessageCodec;
    let mut buf = BytesMut::new();
    buf.extend_from_slice(&[0, 0, 0, 0]);
    let payload = codec.decode(&mut buf).expect("a zero-length frame is complete");
    assert_eq!(payload, Vec::<u8>::new());
    assert_eq!(buf.len(), 0);
}

#[test]
fn incomplete_length_field_consumes_nothing() {
    let mut codec = MessageCodec;
    let mut buf = BytesMut::new();
    buf.extend_from_slice(&[0, 0, 0]);
    assert!(codec.decode(&mut buf).is_none());
    assert_eq!(&buf[..], &[0, 0, 0]);
}

#[test]
fn incomplete_payload_consumes_nothing() {
    let mut codec = MessageCodec;
    let mut buf = BytesMut::new();
    buf.extend_from_slice(&[0, 0, 0, 5, 1, 2]);
    assert!(codec.decode(&mut buf).is_none());
    assert_eq!(&buf[..], &[0, 0, 0, 5, 1, 2]);
}

#[test]
fn session_echoes_one_request() {
    let mut session = Session::new();
    let out = session.on_bytes(&EchoAgent, &frame(&[42, 43])).unwrap();
    assert_eq!(out, frame(&[42, 43]));
}

#[test]
fn fragmented_input_decodes_like_whole_input() {
    let wire = frame(&[9, 9, 9]);

    let mut whole = Session::new();
    let expected = whole.on_bytes(&EchoAgent, &wire).unwrap();

    let mut fragmented = Session::new();
    let mut collected = Vec::new();
    for b in &wire {
        let out = fragmented.on_bytes(&EchoAgent, &vec![*b]).unwrap();
        collected.extend_from_slice(&out);
    }
    assert_eq!(collected, expected);
    assert_eq!(collected, wire);
}

#[test]
fn fragment_boundary_inside_length_field() {
    let mut session = Session::new();
    assert_eq!(session.on_bytes(&EchoAgent, &vec![0, 0]).unwrap(), Vec::<u8>::new());
    assert_eq!(session.on_bytes(&EchoAgent, &vec![0, 1]).unwrap(), Vec::<u8>::new());
    assert_eq!(session.on_bytes(&EchoAgent, &vec![5]).unwrap(), frame(&[5]));
}

#[test]
fn fragment_boundary_inside_payload() {
    let mut session = Session::new();
    assert_eq!(session.on_bytes(&EchoAgent, &vec![0, 0, 0, 3, 1]).unwrap(), Vec::<u8>::new());
    assert_eq!(session.on_bytes(&EchoAgent, &vec![2, 3]).unwrap(), frame(&[1, 2, 3]));
}

#[test]
fn multiple_buffered_frames_drain_in_order() {
    let mut wire = frame(&[1]);
    wire.extend_from_slice(&frame(&[2]));
    wire.extend_from_slice(&frame(&[3]));

    let mut session = Session::new();
    let out = session.on_bytes(&EchoAgent, &wire).unwrap();
    assert_eq!(out, wire);

    let idle = session.on_bytes(&EchoAgent, &Vec::new()).unwrap();
    assert_eq!(idle, Vec::<u8>::new());
}

#[test]
fn responses_keep_request_order() {
    let mut session = Session::new();
    let first = session.on_bytes(&EchoAgent, &frame(b"R1")).unwrap();
    assert_eq!(first, frame(b"R1"));

    let mut back_to_back = frame(b"R2");
    back_to_back.extend_from_slice(&frame(b"R3"));
    let out = session.on_bytes(&EchoAgent, &back_to_back).unwrap();

    let mut expected = frame(b"R2");
    expected.extend_from_slice(&frame(b"R3"));
    assert_eq!(out, expected);
}

#[test]
fn oversized_length_prefix_with_truncated_payload() {
    let mut session = Session::new();
    let mut chunk = be32_encode(100000);
    chunk.extend_from_slice(&[1, 2, 3, 4, 5, 6, 7, 8, 9, 10]);
    let out = session.on_bytes(&EchoAgent, &chunk).unwrap();
    assert_eq!(out, Vec::<u8>::new());
    // The peer hangs up here; the session is simply dropped without ever
    // having consumed or answered the truncated frame.
}

#[test]
fn handler_failure_reports_user_error() {
    let mut session = Session::new();
    let err = session.on_bytes(&RefusingAgent, &frame(&[1])).unwrap_err();
    assert_eq!(err, AgentError::User);
}

#[test]
fn one_failed_session_leaves_another_untouched() {
    let mut failing = Session::new();
    assert!(failing.on_bytes(&RefusingAgent, &frame(&[1])).is_err());

    let mut healthy = Session::new();
    let out = healthy.on_bytes(&EchoAgent, &frame(&[2])).unwrap();
    assert_eq!(out, frame(&[2]));
}
