use kcp_rs::fec::{FecConfig, FecDecoder, FecEncoder, FecRecvBuffer, FecSendBuffer, FecShardHeader};

#[test]
fn test_fec_encode_parity_generation() {
    let config = FecConfig::new(2, 1);

    let mut encoder = FecEncoder::new(config);

    let data0 = [0x11, 0x22, 0x33, 0x44];
    let data1 = [0xAA, 0xBB, 0xCC, 0xDD];

    let data_refs: [&[u8]; 2] = [&data0, &data1];
    let mut parity_shards = vec![vec![0u8; 4]];
    assert!(encoder.encode(&data_refs, &mut parity_shards, 4));

    // Parity is not all zero
    assert!(parity_shards[0].iter().any(|&x| x != 0));
}

#[test]
fn test_fec_send_buffer() {
    let config = FecConfig::new(2, 1);
    let mut buffer = FecSendBuffer::new(config);

    let result = buffer.add_data(&[0x11, 0x22, 0x33]);
    assert!(result.is_some());
    let (group_id, shard_idx) = result.unwrap();
    assert_eq!(group_id, 0);
    assert_eq!(shard_idx, 0);

    assert!(!buffer.is_group_complete());

    let result = buffer.add_data(&[0x44, 0x55, 0x66]);
    assert!(result.is_some());
    let (group_id, shard_idx) = result.unwrap();
    assert_eq!(group_id, 0);
    assert_eq!(shard_idx, 1);

    assert!(buffer.is_group_complete());

    let group = buffer.finalize_group();
    assert!(group.is_some());

    buffer.advance_group();
    assert_eq!(buffer.current_group().group_id, 1);
}

#[test]
fn test_fec_recv_buffer() {
    let config = FecConfig::new(2, 1);
    let mut buffer = FecRecvBuffer::new(config);

    let header1 = FecShardHeader::new(0, 0, 3);
    assert!(buffer.add_shard(&header1, &[0x11, 0x22], 100));

    let header2 = FecShardHeader::new(0, 1, 3);
    assert!(buffer.add_shard(&header2, &[0x33, 0x44], 100));

    let group = buffer.get_group(0);
    assert!(group.is_some());
    assert_eq!(group.unwrap().recv_count, 2);

    let shard0 = buffer.get_data_shard(0, 0);
    assert!(shard0.is_some());
    assert_eq!(shard0.unwrap(), &[0x11, 0x22]);
}

#[test]
fn test_fec_header_roundtrip() {
    let header = FecShardHeader::new(0x1234, 5, 6);
    let mut buf = [0u8; 4];

    header.encode(&mut buf).unwrap();

    let decoded = FecShardHeader::decode(&buf).unwrap();
    assert_eq!(decoded.group_id, 0x1234);
    assert_eq!(decoded.shard_idx, 5);
    assert_eq!(decoded.shard_count, 6);
}

#[test]
fn test_fec_config_overhead() {
    // k=4, m=2 -> 50% overhead
    let balanced = FecConfig::balanced();
    assert_eq!(balanced.overhead_percent(), 50);

    // k=10, m=2 -> 20% overhead
    let efficient = FecConfig::bandwidth_efficient();
    assert_eq!(efficient.overhead_percent(), 20);

    // k=2, m=1 -> 50% overhead
    let low_latency = FecConfig::low_latency();
    assert_eq!(low_latency.overhead_percent(), 50);
}

#[test]
fn test_fec_send_group_get_shard() {
    let config = FecConfig::new(2, 1);
    let mut buffer = FecSendBuffer::new(config);

    buffer.add_data(&[0x11, 0x22, 0x33]).unwrap();
    buffer.add_data(&[0x44, 0x55, 0x66, 0x77]).unwrap();

    buffer.finalize_group().unwrap();

    let group = buffer.current_group();

    // Data shard 0 keeps its own size (3) though it is padded for encoding
    let (data, header) = group.get_shard(0, &config).unwrap();
    assert_eq!(data.len(), 3);
    assert_eq!(data, &[0x11, 0x22, 0x33]);
    assert_eq!(header.shard_idx, 0);
    assert!(header.is_data_shard(config.data_shards));

    let (data1, header1) = group.get_shard(1, &config).unwrap();
    assert_eq!(data1.len(), 4);
    assert_eq!(data1, &[0x44, 0x55, 0x66, 0x77]);
    assert_eq!(header1.shard_idx, 1);

    // Parity shard (index 2)
    let (parity_data, parity_header) = group.get_shard(2, &config).unwrap();
    assert!(!parity_data.is_empty());
    assert_eq!(parity_header.shard_idx, 2);
    assert!(!parity_header.is_data_shard(config.data_shards));
}

#[test]
fn test_fec_encode_decode_no_loss() {
    let config = FecConfig::new(4, 2);

    let mut encoder = FecEncoder::new(config);
    let mut decoder = FecDecoder::new(config);

    let shard_size = 8;

    let original_data = [
        [0x01, 0x02, 0x03, 0x04, 0x05, 0x06, 0x07, 0x08],
        [0x11, 0x12, 0x13, 0x14, 0x15, 0x16, 0x17, 0x18],
        [0x21, 0x22, 0x23, 0x24, 0x25, 0x26, 0x27, 0x28],
        [0x31, 0x32, 0x33, 0x34, 0x35, 0x36, 0x37, 0x38],
    ];

    let data_flat: Vec<u8> = original_data.iter().flatten().copied().collect();
    let mut parity_flat = vec![0u8; 2 * shard_size];

    assert!(encoder.encode_contiguous(&data_flat, &mut parity_flat, shard_size));

    let shard0 = original_data[0];
    let shard1 = original_data[1];
    let shard2 = original_data[2];
    let shard3 = original_data[3];
    let mut shard4 = [0u8; 8];
    let mut shard5 = [0u8; 8];
    shard4.copy_from_slice(&parity_flat[0..8]);
    shard5.copy_from_slice(&parity_flat[8..16]);

    let mut shard_refs: Vec<Option<Vec<u8>>> = vec![
        Some(shard0.to_vec()),
        Some(shard1.to_vec()),
        Some(shard2.to_vec()),
        Some(shard3.to_vec()),
        Some(shard4.to_vec()),
        Some(shard5.to_vec()),
    ];

    // Nothing to recover
    assert!(decoder.decode(&mut shard_refs, shard_size));

    // Data unchanged
    assert_eq!(shard_refs[0], Some(original_data[0].to_vec()));
    assert_eq!(shard_refs[1], Some(original_data[1].to_vec()));
    assert_eq!(shard_refs[2], Some(original_data[2].to_vec()));
    assert_eq!(shard_refs[3], Some(original_data[3].to_vec()));
}

#[test]
fn test_fec_encode_decode_with_recovery() {
    let config = FecConfig::new(2, 2);

    let mut encoder = FecEncoder::new(config);
    let mut decoder = FecDecoder::new(config);

    let shard_size = 4;

    let original_data = [[0x11u8, 0x22, 0x33, 0x44], [0xAAu8, 0xBB, 0xCC, 0xDD]];

    let data_flat: Vec<u8> = original_data.iter().flatten().copied().collect();
    let mut parity_flat = vec![0u8; 2 * shard_size];

    assert!(encoder.encode_contiguous(&data_flat, &mut parity_flat, shard_size));

    let shard0 = [0u8; 4]; // erased, to be recovered
    let shard1 = original_data[1];
    let mut shard2 = [0u8; 4];
    let mut shard3 = [0u8; 4];
    shard2.copy_from_slice(&parity_flat[0..4]);
    shard3.copy_from_slice(&parity_flat[4..8]);

    let mut shards: Vec<Vec<u8>> =
        vec![shard0.to_vec(), shard1.to_vec(), shard2.to_vec(), shard3.to_vec()];

    // Shard 0 is erased
    let erasures = [true, false, false, false];

    assert!(decoder.decode_with_erasures(&mut shards, &erasures, shard_size));

    assert_eq!(shards[0], original_data[0].to_vec());
}

#[test]
fn test_fec_insufficient_shards() {
    let config = FecConfig::new(4, 2);

    let mut decoder = FecDecoder::new(config);

    let shard_size = 8;

    let shard0 = [0u8; 8];
    let shard1 = [0u8; 8];
    let shard4 = [0u8; 8];

    let mut shards: Vec<Option<Vec<u8>>> = vec![
        Some(shard0.to_vec()),
        Some(shard1.to_vec()),
        None,
        None,
        Some(shard4.to_vec()),
        None,
    ];

    // Only 3 shards, 4 needed
    assert!(!decoder.decode(&mut shards, shard_size));
}

#[test]
fn fec_send_to_recv_with_a_lost_shard() {
    // A finalized send group, one data shard lost on the way, recovered by the decoder
    let config = FecConfig::new(3, 2);
    let mut sender = FecSendBuffer::new(config);
    let msgs: [&[u8]; 3] = [&[1, 2, 3, 4], &[5, 6], &[7, 8, 9]];
    for m in msgs.iter() {
        sender.add_data(m).unwrap();
    }
    let group = sender.finalize_group().unwrap();
    let size = group.max_shard_size as usize;
    assert_eq!(size, 4);
    let mut shards: Vec<Vec<u8>> = Vec::new();
    for i in 0..5u8 {
        let (bytes, _) = group.get_shard(i, &config).unwrap();
        let mut v = bytes.to_vec();
        v.resize(size, 0);
        shards.push(v);
    }
    shards[1] = vec![0u8; size];
    let mut decoder = FecDecoder::new(config);
    assert!(decoder.decode_with_erasures(&mut shards, &[false, true, false, false, false], size));
    assert_eq!(shards[1], vec![5, 6, 0, 0]);
}
