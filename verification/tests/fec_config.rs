use kcp_rs::fec::{FecConfig, FecShardHeader, FEC_HEADER_SIZE};

#[test]
fn test_fec_config_default() {
    let config = FecConfig::default();
    assert_eq!(config.data_shards, 4);
    assert_eq!(config.parity_shards, 2);
    assert_eq!(config.total_shards(), 6);
    assert_eq!(config.overhead_percent(), 50);
}

#[test]
fn test_fec_config_presets() {
    let low = FecConfig::low_latency();
    assert_eq!(low.total_shards(), 3);

    let balanced = FecConfig::balanced();
    assert_eq!(balanced.total_shards(), 6);

    let high = FecConfig::high_protection();
    assert_eq!(high.total_shards(), 12);

    let efficient = FecConfig::bandwidth_efficient();
    assert_eq!(efficient.overhead_percent(), 20);
}

#[test]
fn test_shard_header_encode_decode() {
    let header = FecShardHeader::new(0x1234, 3, 6);
    let mut buf = [0u8; 4];

    header.encode(&mut buf).unwrap();
    let decoded = FecShardHeader::decode(&buf).unwrap();

    assert_eq!(decoded.group_id, 0x1234);
    assert_eq!(decoded.shard_idx, 3);
    assert_eq!(decoded.shard_count, 6);
}

#[test]
fn test_is_data_shard() {
    let data_shards = 4;

    assert!(FecShardHeader::new(0, 0, 6).is_data_shard(data_shards));
    assert!(FecShardHeader::new(0, 3, 6).is_data_shard(data_shards));
    assert!(!FecShardHeader::new(0, 4, 6).is_data_shard(data_shards));
    assert!(!FecShardHeader::new(0, 5, 6).is_data_shard(data_shards));
}

#[test]
fn shard_header_wire_bytes_and_short_buffers() {
    let header = FecShardHeader::new(0xBEEF, 7, 12);
    let mut buf = [0xAAu8; 6];
    assert!(header.encode(&mut buf).is_some());
    assert_eq!(buf, [0xEF, 0xBE, 7, 12, 0xAA, 0xAA]);
    assert_eq!(FEC_HEADER_SIZE, 4);

    let mut short = [0x11u8; 3];
    assert!(header.encode(&mut short).is_none());
    assert_eq!(short, [0x11, 0x11, 0x11]);
    assert!(FecShardHeader::decode(&short).is_none());
}

#[test]
fn fec_config_new_and_overhead_rounding() {
    let config = FecConfig::new(3, 1);
    assert_eq!(config.data_shards, 3);
    assert_eq!(config.parity_shards, 1);
    assert_eq!(config.total_shards(), 4);
    // 100 / 3 rounds down
    assert_eq!(config.overhead_percent(), 33);
    assert_eq!(FecConfig::high_protection().overhead_percent(), 50);
}
