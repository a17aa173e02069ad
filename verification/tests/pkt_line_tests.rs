use bytes::{Bytes, BytesMut};
use git_transport::pkt_line::{add_flush, add_pkt_line, add_pkt_line_string, read_pkt_line, PktLineError};

#[test]
fn read_data_line_advances_cursor() {
    let mut buf = Bytes::from_static(b"0009hello0000rest");
    let (len, payload) = read_pkt_line(&mut buf).unwrap();
    assert_eq!(len, 9);
    assert_eq!(&payload[..], b"hello");
    assert_eq!(&buf[..], b"0000rest");
}

#[test]
fn read_flush_consumes_only_the_marker() {
    let mut buf = Bytes::from_static(b"0000rest");
    let (len, payload) = read_pkt_line(&mut buf).unwrap();
    assert_eq!(len, 0);
    assert!(payload.is_empty());
    assert_eq!(&buf[..], b"rest");
}

#[test]
fn write_then_read_round_trip() {
    let mut out = BytesMut::new();
    add_pkt_line_string(&mut out, "want abc\n".to_string()).unwrap();
    add_pkt_line(&mut out, b"").unwrap();
    add_flush(&mut out).unwrap();
    assert_eq!(&out[..], b"000dwant abc\n00040000");
    let mut buf = out.freeze();
    let (len, payload) = read_pkt_line(&mut buf).unwrap();
    assert_eq!((len, &payload[..]), (13, &b"want abc\n"[..]));
    let (len, payload) = read_pkt_line(&mut buf).unwrap();
    assert_eq!((len, payload.len()), (4, 0));
    let (len, _) = read_pkt_line(&mut buf).unwrap();
    assert_eq!(len, 0);
    assert!(buf.is_empty());
}

#[test]
fn malformed_lines_are_rejected_and_left_in_place() {
    let mut buf = Bytes::from_static(b"00");
    assert_eq!(read_pkt_line(&mut buf).unwrap_err(), PktLineError::TruncatedPrefix);
    let mut buf = Bytes::from_static(b"00zz....");
    assert_eq!(read_pkt_line(&mut buf).unwrap_err(), PktLineError::InvalidLength);
    assert_eq!(buf.len(), 8);
    let mut buf = Bytes::from_static(b"0003");
    assert_eq!(read_pkt_line(&mut buf).unwrap_err(), PktLineError::InvalidLength);
    let mut buf = Bytes::from_static(b"000aabc");
    assert_eq!(read_pkt_line(&mut buf).unwrap_err(), PktLineError::TruncatedPayload);
    assert_eq!(&buf[..], b"000aabc");
}
