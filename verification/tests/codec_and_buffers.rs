use kcp_rs::codec::{decode_segment, encode_segment, peek_conv, validate_conv};
use kcp_rs::ring_buffer::{AckList, RecvBuffer, RingBuffer, SendBuffer};
use kcp_rs::segment::SegmentState;
use kcp_rs::time::{clamp_u32, time_after, time_diff};
use kcp_rs::{SegmentHeader, Sequence, CMD_PUSH, HEADER_SIZE, MSS_DEFAULT};

fn sample_header() -> SegmentHeader {
    SegmentHeader { conv: 0x0102_0304, cmd: CMD_PUSH, frg: 2, wnd: 0x0506, ts: 0x0708_090A, sn: 11, una: 7, len: 3 }
}

#[test]
fn segment_header_wire_layout_and_roundtrip() {
    let h = sample_header();
    let mut buf = [0u8; 26];
    assert!(h.encode(&mut buf).is_some());
    assert_eq!(&buf[0..4], &[0x04, 0x03, 0x02, 0x01]);
    assert_eq!(buf[4], CMD_PUSH);
    assert_eq!(buf[5], 2);
    assert_eq!(&buf[6..8], &[0x06, 0x05]);
    let back = SegmentHeader::decode(&buf).unwrap();
    assert_eq!(back.conv, h.conv);
    assert_eq!(back.wnd, h.wnd);
    assert_eq!(back.ts, h.ts);
    assert_eq!(back.sn, h.sn);
    assert_eq!(back.una, h.una);
    assert_eq!(back.len, h.len);
    let mut short = [0u8; 23];
    assert!(h.encode(&mut short).is_none());
    assert!(SegmentHeader::decode(&short).is_none());
}

#[test]
fn codec_segment_roundtrip_and_refusals() {
    let h = sample_header();
    let data = [9u8, 8, 7];
    let mut buf = [0xEEu8; 30];
    let e = encode_segment(&mut buf, &h, &data).unwrap();
    assert_eq!(e.bytes_written, HEADER_SIZE + 3);
    assert_eq!(&buf[24..27], &data);
    assert_eq!(&buf[27..], &[0xEE, 0xEE, 0xEE]);
    let d = decode_segment(&buf).unwrap();
    assert_eq!(d.header.sn, 11);
    assert_eq!(d.data_offset, HEADER_SIZE);
    assert_eq!(d.total_len, HEADER_SIZE + 3);
    // announced data longer than what is there
    assert!(decode_segment(&buf[..26]).is_none());
    let mut small = [0u8; 26];
    assert!(encode_segment(&mut small, &h, &data).is_none());
    assert!(validate_conv(&buf, 0x0102_0304));
    assert!(!validate_conv(&buf, 5));
    assert!(!validate_conv(&buf[..3], 0x0102_0304));
    assert_eq!(peek_conv(&buf), Some(0x0102_0304));
    assert_eq!(peek_conv(&buf[..2]), None);
}

#[test]
fn time_helpers() {
    assert_eq!(time_diff(10, 5), 5);
    assert_eq!(time_diff(5, 10), -5);
    assert_eq!(time_diff(3, u32::MAX - 2), 6);
    assert!(time_after(3, u32::MAX));
    assert!(!time_after(7, 7));
    assert_eq!(clamp_u32(5, 10, 20), 10);
    assert_eq!(clamp_u32(25, 10, 20), 20);
    assert_eq!(clamp_u32(15, 10, 20), 15);
}

#[test]
fn ring_buffer_is_fifo() {
    let mut r: RingBuffer<u32, 4> = RingBuffer::new();
    assert!(r.is_empty());
    for i in 0..4u32 {
        assert!(r.push(i * 10));
    }
    assert!(r.is_full());
    assert!(!r.push(99));
    assert_eq!(r.pop(), Some(0));
    assert!(r.push(40));
    assert_eq!(r.len(), 4);
    assert_eq!(r.capacity(), 4);
    let mut out = Vec::new();
    while let Some(x) = r.pop() {
        out.push(x);
    }
    assert_eq!(out, vec![10, 20, 30, 40]);
    assert_eq!(r.pop(), None);
    // position 4 and position 0 share slot 0 (4 & 3 == 0)
    assert_eq!(r.get(4), Some(&40));
    assert_eq!(r.get(5), Some(&10));
    if let Some(x) = r.get_mut(4) {
        *x = 41;
    }
    assert_eq!(r.get(0), Some(&41));
    r.clear();
    assert!(r.is_empty());
}

#[test]
fn ack_list_is_fifo_and_bounded() {
    let mut a = AckList::new();
    for i in 0..128u32 {
        assert!(a.push(i, i + 1000));
    }
    assert!(!a.push(500, 0));
    assert_eq!(a.len(), 128);
    let first = a.pop().unwrap();
    assert_eq!((first.sn, first.ts), (0, 1000));
    a.clear();
    assert!(a.is_empty());
    assert!(a.pop().is_none());
}

#[test]
fn send_buffer_insert_ack_and_shrink() {
    let mut b = SendBuffer::new();
    assert!(b.insert(Sequence::new(0), 1, &[1, 2, 3]));
    assert!(b.insert(Sequence::new(1), 0, &[4]));
    assert_eq!(b.len(), 2);
    assert!(!b.insert(Sequence::new(2), 0, &vec![0u8; MSS_DEFAULT + 1]));
    let seg = *b.get(Sequence::new(0)).unwrap();
    assert_eq!(b.get_data(&seg), &[1, 2, 3]);
    // a pending segment is not acknowledged
    assert!(!b.ack(Sequence::new(0)));
    b.get_mut(Sequence::new(0)).unwrap().state = SegmentState::Sent;
    assert!(b.ack(Sequence::new(0)));
    assert_eq!(b.len(), 1);
    b.shrink(Sequence::new(1));
    assert_eq!(b.snd_una(), Sequence::new(1));
    assert!(b.get(Sequence::new(7)).is_none());
}

#[test]
fn recv_buffer_reassembles_in_order() {
    let mut r = RecvBuffer::new();
    // second fragment first
    assert!(r.insert(Sequence::new(1), 0, &[3, 4]));
    let mut out = [0u8; 8];
    assert_eq!(r.read(&mut out), 0);
    assert!(r.insert(Sequence::new(0), 1, &[1, 2]));
    // a duplicate is refused
    assert!(!r.insert(Sequence::new(0), 1, &[1, 2]));
    assert_eq!(r.read(&mut out), 4);
    assert_eq!(&out[..4], &[1, 2, 3, 4]);
    assert_eq!(r.rcv_nxt(), Sequence::new(2));
    // outside the window
    assert!(!r.insert(Sequence::new(1000), 0, &[1]));
}

#[test]
fn send_buffer_shrink_removes_acknowledged_segments() {
    let mut sb = SendBuffer::new();
    assert!(sb.insert(Sequence::new(0), 0, &[1]));
    assert!(sb.insert(Sequence::new(1), 0, &[2]));
    for i in 0..2u32 {
        sb.get_mut(Sequence::new(i)).unwrap().state = SegmentState::Sent;
    }
    assert!(sb.ack(Sequence::new(0)));
    assert!(sb.ack(Sequence::new(1)));
    assert_eq!(sb.len(), 0);
    sb.shrink(Sequence::new(2));
    assert!(sb.get(Sequence::new(0)).is_none());
    assert!(sb.get(Sequence::new(1)).is_none());
    assert_eq!(sb.snd_una(), Sequence::new(2));
}

#[test]
fn ack_list_fills_to_128_then_drains_in_order() {
    let mut al = AckList::new();
    for i in 0..128u32 {
        assert!(al.push(i, 1000 + i));
    }
    assert!(!al.push(500, 500));
    assert_eq!(al.len(), 128);
    for i in 0..128u32 {
        let e = al.pop().expect("entry");
        assert_eq!((e.sn, e.ts), (i, 1000 + i));
    }
    assert!(al.pop().is_none());
    assert!(al.is_empty());
}
