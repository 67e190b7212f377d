use kcp_rs::fec::buffer::{FecRecvGroup, FecSendGroup, ShardState};
use kcp_rs::fec::{FecConfig, FecEncoder, FecRecvBuffer, FecSendBuffer, FecShardHeader, GF256};

#[test]
fn test_send_group_add_data() {
    let config = FecConfig::new(2, 1);
    let mut group = FecSendGroup::default();
    group.reset(0);

    let data1 = [0x11, 0x22, 0x33];
    let data2 = [0x44, 0x55, 0x66, 0x77];

    assert_eq!(group.add_data_shard(&data1, &config), Some(0));
    assert_eq!(group.add_data_shard(&data2, &config), Some(1));
    assert_eq!(group.add_data_shard(&[0x88], &config), None); // Full

    assert!(group.is_complete(&config));
    assert_eq!(group.max_shard_size, 4);
}

#[test]
fn test_send_buffer_flow() {
    let config = FecConfig::new(2, 1);
    let mut buffer = FecSendBuffer::new(config);

    let (gid1, idx1) = buffer.add_data(&[0x11, 0x22]).unwrap();
    assert_eq!(gid1, 0);
    assert_eq!(idx1, 0);

    let (gid2, idx2) = buffer.add_data(&[0x33, 0x44]).unwrap();
    assert_eq!(gid2, 0);
    assert_eq!(idx2, 1);

    assert!(buffer.is_group_complete());

    let group = buffer.finalize_group().unwrap();
    assert_eq!(group.data_count, 2);

    buffer.advance_group();
    assert_eq!(buffer.current_group().group_id, 1);
}

#[test]
fn test_recv_group_add_shard() {
    let mut group = FecRecvGroup::default();
    group.reset(0, 3);

    let header = FecShardHeader::new(0, 0, 3);
    assert!(group.add_shard(&header, &[0x11, 0x22], 100));
    assert_eq!(group.recv_count, 1);

    // Duplicate fails
    assert!(!group.add_shard(&header, &[0x11, 0x22], 100));
    assert_eq!(group.recv_count, 1);

    // A different shard succeeds
    let header2 = FecShardHeader::new(0, 1, 3);
    assert!(group.add_shard(&header2, &[0x33, 0x44], 100));
    assert_eq!(group.recv_count, 2);
}

#[test]
fn test_recv_buffer_add_shard() {
    let config = FecConfig::new(2, 1);
    let mut buffer = FecRecvBuffer::new(config);

    let header = FecShardHeader::new(0, 0, 3);
    assert!(buffer.add_shard(&header, &[0x11, 0x22], 100));

    let group = buffer.get_group(0).unwrap();
    assert_eq!(group.recv_count, 1);
}

#[test]
fn generate_parity_pads_and_encodes() {
    let config = FecConfig::new(2, 1);
    let mut encoder = FecEncoder::new(config);
    let mut group = FecSendGroup::default();
    group.reset(5);
    group.add_data_shard(&[0x01, 0x02, 0x03], &config).unwrap();
    group.add_data_shard(&[0x10, 0x20, 0x30, 0x40], &config).unwrap();
    assert!(group.generate_parity(&mut encoder));
    // shard 0 padded with a zero; parity = d0 + 3 * d1
    let (d0, _) = group.get_shard(0, &config).unwrap();
    assert_eq!(d0, &[0x01, 0x02, 0x03]);
    assert_eq!(group.shards[0][3], 0);
    let (p, h) = group.get_shard(2, &config).unwrap();
    assert_eq!(p.len(), 4);
    let padded0 = [0x01u8, 0x02, 0x03, 0x00];
    let d1 = [0x10u8, 0x20, 0x30, 0x40];
    for b in 0..4 {
        assert_eq!(p[b], padded0[b] ^ GF256::new(3).mul(GF256::new(d1[b])).value());
    }
    assert_eq!(h.group_id, 5);
    assert_eq!(h.shard_idx, 2);
    assert_eq!(h.shard_count, 3);
    assert_eq!(group.states[2], ShardState::Pending);
}

#[test]
fn generate_parity_refusals_and_mark_sent() {
    let config = FecConfig::new(2, 1);
    let mut encoder = FecEncoder::new(config);
    let mut group = FecSendGroup::default();
    group.add_data_shard(&[1], &config).unwrap();
    // one data shard of two
    assert!(!group.generate_parity(&mut encoder));
    group.add_data_shard(&[], &config).unwrap();
    let mut empty = FecSendGroup::default();
    empty.add_data_shard(&[], &config).unwrap();
    empty.add_data_shard(&[], &config).unwrap();
    // all data shards empty
    assert!(!empty.generate_parity(&mut encoder));
    assert!(group.generate_parity(&mut encoder));
    group.mark_sent(2);
    assert_eq!(group.states[2], ShardState::Sent);
    group.mark_sent(200);
    assert!(group.get_shard(3, &config).is_none());
    assert!(FecSendGroup::default().get_shard(0, &config).is_none());
}

#[test]
fn recv_group_refusals_and_missing_indices() {
    let mut group = FecRecvGroup::default();
    group.reset(9, 6);
    assert!(!group.add_shard(&FecShardHeader::new(9, 16, 6), &[1], 10));
    assert!(!group.add_shard(&FecShardHeader::new(9, 1, 6), &vec![0u8; 1377], 10));
    assert!(group.add_shard(&FecShardHeader::new(9, 2, 6), &[7, 7], 10));
    assert!(group.add_shard(&FecShardHeader::new(9, 0, 6), &[8], 20));
    assert_eq!(group.first_recv_ts, 10);
    assert_eq!(group.missing_data_indices(4), vec![1u8, 3]);
    assert!(!group.has_all_data(4));
    assert!(group.has_all_data(1));
    assert!(!group.can_decode(4));
    assert!(group.can_decode(2));
}

#[test]
fn recv_buffer_try_decode_and_slots() {
    let config = FecConfig::new(2, 1);
    let mut buffer = FecRecvBuffer::new(config);
    // unknown group
    assert!(!buffer.try_decode(3));
    assert!(buffer.add_shard(&FecShardHeader::new(3, 2, 3), &[0xAB], 1));
    // one shard of two
    assert!(!buffer.try_decode(3));
    assert!(buffer.get_data_shard(3, 0).is_none());
    assert!(buffer.add_shard(&FecShardHeader::new(3, 1, 3), &[0xCD, 0xEF], 2));
    assert!(buffer.try_decode(3));
    assert!(buffer.get_group(3).unwrap().decoded);
    assert_eq!(buffer.get_data_shard(3, 1).unwrap(), &[0xCD, 0xEF]);
    // a group id 64 apart takes the same slot over
    assert!(buffer.add_shard(&FecShardHeader::new(67, 0, 3), &[1], 5));
    assert!(buffer.get_group(3).is_none());
    assert_eq!(buffer.get_group(67).unwrap().recv_count, 1);
    // not a data shard index
    assert!(buffer.get_data_shard(67, 2).is_none());
    assert_eq!(buffer.config().data_shards, 2);
}

#[test]
fn recv_buffer_try_decode_reconstructs_lost_data_shard() {
    let c = FecConfig::new(2, 1);
    let d0 = [0x11u8, 0x22];
    let d1 = [0x33u8, 0x44];
    let mut parity = vec![vec![0u8; 2]];
    assert!(FecEncoder::new(c).encode(&[&d0, &d1], &mut parity, 2));
    let mut rb = FecRecvBuffer::new(c);
    assert!(rb.add_shard(&FecShardHeader::new(0, 1, 3), &d1, 100));
    assert!(rb.add_shard(&FecShardHeader::new(0, 2, 3), &parity[0], 100));
    assert!(rb.try_decode(0));
    assert_eq!(rb.get_data_shard(0, 0), Some(&[0x11u8, 0x22][..]));
    assert_eq!(rb.get_data_shard(0, 1), Some(&[0x33u8, 0x44][..]));
}
