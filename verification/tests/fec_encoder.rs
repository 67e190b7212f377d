use kcp_rs::fec::{FecConfig, FecEncoder, GF256};

#[test]
fn test_encoder_creation() {
    let config = FecConfig::new(4, 2);
    let encoder = FecEncoder::new(config);
    assert_eq!(encoder.config().data_shards, 4);
    assert_eq!(encoder.config().parity_shards, 2);
}

#[test]
fn test_encode_basic() {
    let config = FecConfig::new(2, 1);
    let mut encoder = FecEncoder::new(config);

    let data0 = [0x01, 0x02, 0x03, 0x04];
    let data1 = [0x05, 0x06, 0x07, 0x08];
    let data_shards: [&[u8]; 2] = [&data0, &data1];

    let mut parity_shards = vec![vec![0u8; 4]];

    assert!(encoder.encode(&data_shards, &mut parity_shards, 4));

    // parity = coeff[0] * data0 + coeff[1] * data1
    let parity0 = &parity_shards[0];
    assert!(!parity0.iter().all(|&x| x == 0) || (data0.iter().zip(data1.iter()).all(|(&a, &b)| a == b)));
}

#[test]
fn test_encode_contiguous() {
    let config = FecConfig::new(2, 1);
    let mut encoder = FecEncoder::new(config);

    let data = [
        0x01, 0x02, 0x03, 0x04, // shard 0
        0x05, 0x06, 0x07, 0x08, // shard 1
    ];
    let mut parity = [0u8; 4];

    assert!(encoder.encode_contiguous(&data, &mut parity, 4));
}

#[test]
fn test_encode_invalid_params() {
    let config = FecConfig::new(2, 1);
    let mut encoder = FecEncoder::new(config);

    let data0 = [0u8; 4];
    let data_shards: [&[u8]; 1] = [&data0]; // Wrong count
    let mut parity_shards = vec![vec![0u8; 4]];

    // Fails with the wrong number of data shards
    assert!(!encoder.encode(&data_shards, &mut parity_shards, 4));
}

#[test]
fn test_encode_matrix_properties() {
    let config = FecConfig::new(4, 2);
    let encoder = FecEncoder::new(config);

    // First column is all 1s (x^0 = 1)
    for i in 0..2 {
        assert_eq!(encoder.encode_matrix[i][0], GF256::new(1));
    }
}

#[test]
fn encode_parity_values() {
    // k = 2, m = 1: parity = 3^0 * d0 + 3^1 * d1 = d0 + 3 * d1
    let config = FecConfig::new(2, 1);
    let mut encoder = FecEncoder::new(config);
    let d0 = [0x01u8, 0x10, 0xFF];
    let d1 = [0x02u8, 0x80, 0x00];
    let shards: [&[u8]; 2] = [&d0, &d1];
    let mut parity = vec![vec![0xEEu8; 5]];
    assert!(encoder.encode(&shards, &mut parity, 3));
    let expect: Vec<u8> = (0..3).map(|b| d0[b] ^ GF256::new(3).mul(GF256::new(d1[b])).value()).collect();
    assert_eq!(&parity[0][..3], &expect[..]);
    // bytes past the shard size stay
    assert_eq!(&parity[0][3..], &[0xEE, 0xEE]);
    assert_eq!(encoder.encode_matrix[0][1], GF256::new(3));
}

#[test]
fn encode_contiguous_matches_encode() {
    let config = FecConfig::new(3, 2);
    let mut encoder = FecEncoder::new(config);
    let shards = [[1u8, 2, 3, 4], [5u8, 6, 7, 8], [9u8, 10, 11, 12]];
    let refs: [&[u8]; 3] = [&shards[0], &shards[1], &shards[2]];
    let mut parity = vec![vec![0u8; 4], vec![0u8; 4]];
    assert!(encoder.encode(&refs, &mut parity, 4));
    let flat: Vec<u8> = shards.iter().flatten().copied().collect();
    let mut pflat = vec![0x55u8; 10];
    assert!(encoder.encode_contiguous(&flat, &mut pflat, 4));
    assert_eq!(&pflat[0..4], &parity[0][..]);
    assert_eq!(&pflat[4..8], &parity[1][..]);
    assert_eq!(&pflat[8..], &[0x55, 0x55]);
}

#[test]
fn encode_refuses_oversized_shards_and_short_buffers() {
    let config = FecConfig::new(2, 1);
    let mut encoder = FecEncoder::new(config);
    let d = [0u8; 4];
    let refs: [&[u8]; 2] = [&d, &d];
    let mut parity = vec![vec![7u8; 4]];
    assert!(!encoder.encode(&refs, &mut parity, 1377));
    assert_eq!(parity, vec![vec![7u8; 4]]);
    let mut p = [0u8; 3];
    assert!(!encoder.encode_contiguous(&[0u8; 8], &mut p, 4));
    assert!(!encoder.encode_contiguous(&[0u8; 7], &mut [0u8; 4], 4));
}
