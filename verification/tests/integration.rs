use kcp_rs::{Kcp, KcpConfig, KcpError, KcpOutput, KcpResult};
use std::cell::RefCell;
use std::collections::VecDeque;
use std::rc::Rc;

/// Simulated network link that captures packets
struct SimulatedLink {
    packets: Rc<RefCell<VecDeque<Vec<u8>>>>,
}

impl SimulatedLink {
    fn new(packets: Rc<RefCell<VecDeque<Vec<u8>>>>) -> Self {
        Self { packets }
    }
}

impl KcpOutput for SimulatedLink {
    fn output(&mut self, data: &[u8]) -> KcpResult<usize> {
        self.packets.borrow_mut().push_back(data.to_vec());
        Ok(data.len())
    }
}

/// Create a KCP endpoint on the heap
fn create_kcp(conv: u32, link: SimulatedLink) -> Box<Kcp<SimulatedLink>> {
    Box::new(Kcp::with_config(conv, link, KcpConfig::fast()))
}

#[test]
fn test_basic_send_receive() {
    let a_to_b = Rc::new(RefCell::new(VecDeque::new()));
    let b_to_a = Rc::new(RefCell::new(VecDeque::new()));

    let mut kcp_a = create_kcp(1, SimulatedLink::new(a_to_b.clone()));
    let mut kcp_b = create_kcp(1, SimulatedLink::new(b_to_a.clone()));

    let test_data = b"Hello, KCP!";
    kcp_a.send(test_data).expect("send should succeed");

    let mut current_time = 0u32;
    for _ in 0..10 {
        current_time = current_time.wrapping_add(20);

        kcp_a.update(current_time).expect("update A");
        kcp_b.update(current_time).expect("update B");

        while let Some(packet) = a_to_b.borrow_mut().pop_front() {
            let _ = kcp_b.input(&packet);
        }
        while let Some(packet) = b_to_a.borrow_mut().pop_front() {
            let _ = kcp_a.input(&packet);
        }
    }

    let mut recv_buf = [0u8; 1024];
    match kcp_b.recv(&mut recv_buf) {
        Ok(n) => {
            assert_eq!(&recv_buf[..n], test_data);
        }
        Err(e) => {
            println!(
                "recv failed: {:?}, wait_snd_a={}, wait_snd_b={}",
                e,
                kcp_a.wait_snd(),
                kcp_b.wait_snd()
            );
        }
    }
}

#[test]
fn test_fragmentation() {
    let packets = Rc::new(RefCell::new(VecDeque::new()));
    let mut kcp = create_kcp(1, SimulatedLink::new(packets.clone()));

    // Larger than one segment (1376 bytes)
    let large_data = vec![0xABu8; 3000];
    let result = kcp.send(&large_data);

    assert!(result.is_ok());
    assert_eq!(result.unwrap(), 3000);
    assert!(kcp.wait_snd() >= 3);
}

#[test]
fn test_empty_send() {
    let packets = Rc::new(RefCell::new(VecDeque::new()));
    let mut kcp = create_kcp(1, SimulatedLink::new(packets.clone()));

    let result = kcp.send(&[]);
    assert!(result.is_ok());
    assert_eq!(result.unwrap(), 0);
}

#[test]
fn test_update_without_send() {
    let packets = Rc::new(RefCell::new(VecDeque::new()));
    let mut kcp = create_kcp(1, SimulatedLink::new(packets.clone()));

    for ts in (0..1000).step_by(20) {
        let result = kcp.update(ts);
        assert!(result.is_ok());
    }
}

#[test]
fn test_conv_mismatch() {
    let packets = Rc::new(RefCell::new(VecDeque::new()));
    let mut kcp = create_kcp(1, SimulatedLink::new(packets.clone()));

    let mut bad_packet = [0u8; 24];
    bad_packet[0..4].copy_from_slice(&2u32.to_le_bytes()); // conv 2, the endpoint has 1

    let result = kcp.input(&bad_packet);
    assert!(result.is_err());
    assert_eq!(result.unwrap_err(), KcpError::ConvMismatch);
}

#[test]
fn test_invalid_packet_too_small() {
    let packets = Rc::new(RefCell::new(VecDeque::new()));
    let mut kcp = create_kcp(1, SimulatedLink::new(packets.clone()));

    let small_packet = [0u8; 10];
    let result = kcp.input(&small_packet);
    assert!(result.is_err());
    assert_eq!(result.unwrap_err(), KcpError::InvalidPacket);
}

#[test]
fn test_multiple_sends() {
    let packets = Rc::new(RefCell::new(VecDeque::new()));
    let mut kcp = create_kcp(1, SimulatedLink::new(packets.clone()));

    for i in 0..5 {
        let data = format!("Message {}", i);
        let result = kcp.send(data.as_bytes());
        assert!(result.is_ok());
    }

    assert_eq!(kcp.wait_snd(), 5);
}

#[test]
fn test_rtt_and_rto() {
    let packets = Rc::new(RefCell::new(VecDeque::new()));
    let kcp = create_kcp(1, SimulatedLink::new(packets.clone()));

    assert_eq!(kcp.rtt(), 0);
    assert_eq!(kcp.rto(), 200);
}

#[test]
fn test_config_fast_mode() {
    let config = KcpConfig::fast();
    assert!(config.nodelay);
    assert!(config.nc);
    assert_eq!(config.interval, 20);
    assert_eq!(config.resend, 2);
}

#[test]
fn test_config_default() {
    let config = KcpConfig::default();
    assert!(!config.nodelay);
    assert!(!config.nc);
    assert_eq!(config.interval, 100);
    assert_eq!(config.mtu, 1400);
}

#[test]
fn test_check_returns_next_update_time() {
    let packets = Rc::new(RefCell::new(VecDeque::new()));
    let mut kcp = create_kcp(1, SimulatedLink::new(packets.clone()));

    // Before the first update, check returns the current time
    let next = kcp.check(100);
    assert_eq!(next, 100);

    let _ = kcp.update(100);
    let next = kcp.check(100);
    assert!(next >= 100);
}

/// Move every queued packet of `from` into `to`.
fn deliver(from: &Rc<RefCell<VecDeque<Vec<u8>>>>, to: &mut Kcp<SimulatedLink>) {
    while let Some(packet) = from.borrow_mut().pop_front() {
        let _ = to.input(&packet);
    }
}

#[test]
fn kcp_recv_on_empty_would_block() {
    let packets = Rc::new(RefCell::new(VecDeque::new()));
    let mut kcp = create_kcp(1, SimulatedLink::new(packets.clone()));
    let mut buf = [0u8; 16];
    assert_eq!(kcp.recv(&mut buf), Err(KcpError::WouldBlock));
}

#[test]
fn kcp_send_too_many_fragments_is_refused() {
    let packets = Rc::new(RefCell::new(VecDeque::new()));
    let mut kcp = create_kcp(1, SimulatedLink::new(packets.clone()));
    // 129 fragments of 1376 bytes exceed the fragment capacity of 128
    let data = vec![1u8; 1376 * 128 + 1];
    assert_eq!(kcp.send(&data), Err(KcpError::DataTooLarge));
    assert_eq!(kcp.wait_snd(), 0);
}

#[test]
fn kcp_fragmented_message_arrives_whole() {
    let a_to_b = Rc::new(RefCell::new(VecDeque::new()));
    let b_to_a = Rc::new(RefCell::new(VecDeque::new()));
    let mut kcp_a = create_kcp(7, SimulatedLink::new(a_to_b.clone()));
    let mut kcp_b = create_kcp(7, SimulatedLink::new(b_to_a.clone()));

    let message: Vec<u8> = (0..3000u32).map(|i| (i % 251) as u8).collect();
    assert_eq!(kcp_a.send(&message), Ok(3000));

    let mut now = 0u32;
    let mut got: Option<Vec<u8>> = None;
    for _ in 0..50 {
        now = now.wrapping_add(20);
        kcp_a.update(now).expect("update A");
        kcp_b.update(now).expect("update B");
        deliver(&a_to_b, &mut kcp_b);
        deliver(&b_to_a, &mut kcp_a);
        let mut buf = vec![0u8; 4096];
        if let Ok(n) = kcp_b.recv(&mut buf) {
            got = Some(buf[..n].to_vec());
            break;
        }
    }
    assert_eq!(got, Some(message));
}

#[test]
fn kcp_is_fatal_errors() {
    assert!(KcpError::DeadLink.is_fatal());
    assert!(KcpError::ConvMismatch.is_fatal());
    assert!(!KcpError::WouldBlock.is_fatal());
    assert!(!KcpError::BufferFull.is_fatal());
}

#[test]
fn kcp_first_flush_emits_one_data_packet() {
    let a_to_b = Rc::new(RefCell::new(VecDeque::new()));
    let mut kcp = create_kcp(0x0102_0304, SimulatedLink::new(a_to_b.clone()));
    assert_eq!(kcp.send(b"hi"), Ok(2));
    kcp.update(1000).expect("update");
    let sent: Vec<Vec<u8>> = a_to_b.borrow_mut().drain(..).collect();
    let expected: Vec<u8> = vec![
        0x04, 0x03, 0x02, 0x01, // conv
        81, // push
        0,  // frg
        128, 0, // wnd
        0xe8, 0x03, 0, 0, // ts = 1000
        0, 0, 0, 0, // sn
        0, 0, 0, 0, // una
        2, 0, 0, 0, // len
        b'h', b'i',
    ];
    assert_eq!(sent, vec![expected]);
}

#[test]
fn kcp_received_push_is_acknowledged_on_next_flush() {
    let a_to_b = Rc::new(RefCell::new(VecDeque::new()));
    let b_to_a = Rc::new(RefCell::new(VecDeque::new()));
    let mut kcp_a = create_kcp(9, SimulatedLink::new(a_to_b.clone()));
    let mut kcp_b = create_kcp(9, SimulatedLink::new(b_to_a.clone()));
    assert_eq!(kcp_a.send(b"x"), Ok(1));
    kcp_a.update(500).expect("update A");
    deliver(&a_to_b, &mut kcp_b);
    kcp_b.update(500).expect("update B");
    let sent: Vec<Vec<u8>> = b_to_a.borrow_mut().drain(..).collect();
    assert_eq!(sent.len(), 1);
    let ack = &sent[0];
    assert_eq!(ack.len(), 24);
    assert_eq!(&ack[0..4], &[9, 0, 0, 0]);
    assert_eq!(ack[4], 82); // ack
    assert_eq!(&ack[8..12], &500u32.to_le_bytes()); // timestamp of the acknowledged packet
    assert_eq!(&ack[12..16], &[0, 0, 0, 0]); // acknowledged sn
    assert_eq!(&ack[20..24], &[0, 0, 0, 0]); // no data
}

#[test]
fn kcp_wait_snd_returns_to_zero_after_acknowledgment() {
    let a_to_b = Rc::new(RefCell::new(VecDeque::new()));
    let b_to_a = Rc::new(RefCell::new(VecDeque::new()));
    let mut kcp_a = create_kcp(1, SimulatedLink::new(a_to_b.clone()));
    let mut kcp_b = create_kcp(1, SimulatedLink::new(b_to_a.clone()));
    assert_eq!(kcp_a.send(&[1u8; 11]), Ok(11));
    assert_eq!(kcp_a.wait_snd(), 1);
    let mut now = 0u32;
    for _ in 0..10 {
        now = now.wrapping_add(20);
        kcp_a.update(now).expect("update A");
        kcp_b.update(now).expect("update B");
        deliver(&a_to_b, &mut kcp_b);
        deliver(&b_to_a, &mut kcp_a);
    }
    assert_eq!(kcp_a.wait_snd(), 0);
    let mut buf = [0u8; 64];
    assert_eq!(kcp_b.recv(&mut buf), Ok(11));
    assert_eq!(kcp_b.recv(&mut buf), Err(KcpError::WouldBlock));
}

/// A PUSH packet of conversation 1 carrying one byte with sequence number `sn`.
fn push_packet(sn: u32, byte: u8) -> Vec<u8> {
    let mut p = vec![1, 0, 0, 0, 81, 0, 128, 0];
    p.extend_from_slice(&0u32.to_le_bytes());
    p.extend_from_slice(&sn.to_le_bytes());
    p.extend_from_slice(&0u32.to_le_bytes());
    p.extend_from_slice(&1u32.to_le_bytes());
    p.push(byte);
    p
}

#[test]
fn kcp_receive_window_follows_delivered_messages() {
    let out = Rc::new(RefCell::new(VecDeque::new()));
    let mut kcp = create_kcp(1, SimulatedLink::new(out.clone()));
    let mut buf = [0u8; 16];
    for n in 0..300u32 {
        assert_eq!(kcp.input(&push_packet(n, n as u8)), Ok(()));
        assert_eq!(kcp.recv(&mut buf), Ok(1));
        assert_eq!(buf[0], n as u8);
    }
}

#[test]
fn kcp_normal_mode_doubles_the_timeout_on_each_resend() {
    let out = Rc::new(RefCell::new(VecDeque::new()));
    // normal (not nodelay) timeouts, without the congestion window
    let config = KcpConfig {
        mtu: 1400,
        interval: 100,
        nodelay: false,
        resend: 0,
        nc: true,
        snd_wnd: 32,
        rcv_wnd: 128,
        stream: false,
    };
    let mut kcp = Box::new(Kcp::with_config(3, SimulatedLink::new(out.clone()), config));
    assert_eq!(kcp.send(b"z"), Ok(1));
    let mut sent_at = Vec::new();
    let mut now = 0u32;
    while now <= 1600 {
        kcp.update(now).expect("update");
        let n = out.borrow_mut().drain(..).count();
        for _ in 0..n {
            sent_at.push(now);
        }
        now += 100;
    }
    // first send at 0, due again at 0 + 200 + 25; then each timeout doubles: 400, 800
    assert_eq!(sent_at, vec![0, 300, 700, 1500]);
}

#[test]
fn kcp_link_is_dead_after_twenty_transmissions() {
    let out = Rc::new(RefCell::new(VecDeque::new()));
    let mut kcp = create_kcp(4, SimulatedLink::new(out.clone()));
    assert_eq!(kcp.send(b"q"), Ok(1));
    let mut now = 0u32;
    let mut transmissions = 0usize;
    let result = loop {
        now = now.wrapping_add(100);
        let r = kcp.update(now);
        transmissions += out.borrow_mut().drain(..).count();
        if r.is_err() {
            break r;
        }
        assert!(!kcp.is_dead());
        assert!(now < 100_000_000);
    };
    assert_eq!(result, Err(KcpError::DeadLink));
    assert_eq!(transmissions, 20);
    assert!(kcp.is_dead());
}
